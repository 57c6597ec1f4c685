//! The wait for a pattern, as a state machine.
//!
//! A [`Scan`] is one wait. It never reads a clock or a pipe itself: its
//! [`Phase`] says what it needs next, the driver gets it and reports it as an
//! [`Event`], and [`Scan::step`] decides. The wait starts with nothing
//! accumulated, asks for the clock before each character, tests the patterns
//! after each character that it appends, and ends at the first match or at
//! the first clock reading that has reached the timeout.
use crate::decode::{feed_held, feed_out, unit_open, Decoded, Decoder};
use crate::pattern::{first_match, PatternSet};
use vstd::prelude::*;

verus! {

/// What a scan needs next, or how it ended.
#[derive(Clone, Copy, Debug, PartialEq, Eq, Structural)]
pub enum Phase {
    /// The scan needs the time that has passed since the wait began.
    Clock,
    /// The scan needs the next byte of the output.
    Read,
    /// The pattern with this index matched. The wait is over.
    Matched(usize),
    /// The timeout was reached before any pattern matched. The wait is over.
    TimedOut,
}

/// What the driver reports to a scan.
#[derive(Clone, Copy, Debug, PartialEq, Eq, Structural)]
pub enum Event {
    /// This many nanoseconds have passed since the wait began.
    Clock(u128),
    /// The output gave this byte.
    Byte(u8),
    /// The output gave no byte: it has ended, or the read failed.
    Silence,
}

/// The state of a wait.
pub struct ScanModel {
    /// The patterns waited for, in the caller's order.
    pub patterns: Seq<Seq<char>>,
    /// The longest time to wait, in nanoseconds.
    pub timeout: nat,
    /// The characters accumulated so far.
    pub text: Seq<char>,
    /// The bytes of a character that is not complete yet.
    pub held: Seq<u8>,
    /// What the scan needs next, or how it ended.
    pub phase: Phase,
}

impl ScanModel {
    /// A wait that has just begun: nothing accumulated, the clock is asked first.
    pub open spec fn start(patterns: Seq<Seq<char>>, timeout: nat) -> ScanModel {
        ScanModel {
            patterns,
            timeout,
            text: Seq::empty(),
            held: Seq::empty(),
            phase: Phase::Clock,
        }
    }

    /// The wait is over.
    pub open spec fn finished(self) -> bool {
        self.phase is Matched || self.phase is TimedOut
    }

    /// A clock reading ends the wait where it has reached the timeout, and
    /// else lets the scan read on. It counts only when the scan asked for it.
    pub open spec fn on_clock(self, elapsed: nat) -> ScanModel {
        if self.phase is Clock {
            ScanModel {
                phase: if elapsed >= self.timeout {
                    Phase::TimedOut
                } else {
                    Phase::Read
                },
                ..self
            }
        } else {
            self
        }
    }

    /// A byte is decoded. While its character lacks bytes the scan reads on;
    /// a unit that encodes no character is dropped; a character is appended,
    /// and the patterns are tested against all that has been accumulated.
    /// It counts only when the scan asked for it.
    pub open spec fn on_byte(self, b: u8) -> ScanModel {
        if self.phase is Read {
            match feed_out(self.held, b) {
                Decoded::Partial => ScanModel { held: feed_held(self.held, b), ..self },
                Decoded::Skipped => ScanModel { held: Seq::empty(), phase: Phase::Clock, ..self },
                Decoded::Char(c) => ScanModel {
                    text: self.text.push(c),
                    held: Seq::empty(),
                    phase: match first_match(self.patterns, self.text.push(c)) {
                        Some(i) => Phase::Matched(i),
                        None => Phase::Clock,
                    },
                    ..self
                },
            }
        } else {
            self
        }
    }

    /// A read that gave nothing drops the bytes of a character under way and
    /// sends the scan back to the clock. It counts only when the scan asked
    /// for a byte.
    pub open spec fn on_silence(self) -> ScanModel {
        if self.phase is Read {
            ScanModel { held: Seq::empty(), phase: Phase::Clock, ..self }
        } else {
            self
        }
    }

    /// The state after one event.
    pub open spec fn next(self, event: Event) -> ScanModel {
        match event {
            Event::Clock(elapsed) => self.on_clock(elapsed as nat),
            Event::Byte(b) => self.on_byte(b),
            Event::Silence => self.on_silence(),
        }
    }

    /// The state after a sequence of events.
    pub open spec fn run(self, events: Seq<Event>) -> ScanModel
        decreases events.len(),
    {
        if events.len() == 0 {
            self
        } else {
            self.run(events.drop_last()).next(events.last())
        }
    }

    /// The state in which a driver leaves the scan that answers each of its
    /// requests, the clock with `now` and a read with the next of `bytes`,
    /// until the scan is over or asks for a byte when none is left.
    pub open spec fn fed(self, now: u128, bytes: Seq<u8>) -> ScanModel
        decreases bytes.len(), (if self.phase is Clock { 1nat } else { 0nat }),
    {
        if self.phase is Clock {
            self.on_clock(now as nat).fed(now, bytes)
        } else if self.phase is Read && bytes.len() > 0 {
            self.on_byte(bytes[0]).fed(now, bytes.drop_first())
        } else {
            self
        }
    }

    /// What holds of every state that a wait can reach.
    ///
    /// Bytes are held back only while a character is being read. No pattern
    /// matched the text at any earlier length. A scan that ended in a match
    /// names the first pattern that matches the text as it stands; in a scan
    /// that did not, no pattern matches it. The empty text is never tested.
    pub open spec fn inv(self) -> bool {
        &&& unit_open(self.held)
        &&& self.held.len() > 0 ==> self.phase is Read
        &&& forall|n: int|
            0 < n < self.text.len() ==> first_match(self.patterns, #[trigger] self.text.take(n))
                is None
        &&& match self.phase {
            Phase::Matched(i) => self.text.len() > 0 && first_match(self.patterns, self.text)
                == Some(i),
            _ => self.text.len() > 0 ==> first_match(self.patterns, self.text) is None,
        }
    }
}

/// `String::push` of std: appends the character to the string.
#[verifier::external_body]
fn push_char(text: &mut String, c: char)
    ensures
        final(text)@ == old(text)@.push(c),
{
    text.push(c)
}

/// One wait for a pattern.
#[derive(Debug)]
pub struct Scan {
    patterns: PatternSet,
    timeout: u128,
    text: String,
    decoder: Decoder,
    phase: Phase,
}

impl View for Scan {
    type V = ScanModel;

    closed spec fn view(&self) -> ScanModel {
        ScanModel {
            patterns: self.patterns@,
            timeout: self.timeout as nat,
            text: self.text@,
            held: self.decoder@,
            phase: self.phase,
        }
    }
}

impl Scan {
    /// The scan is in a state that a wait can reach.
    pub open spec fn wf(&self) -> bool {
        self@.inv()
    }

    /// Begins a wait for `patterns` that lasts at most `timeout` nanoseconds.
    pub fn new(patterns: PatternSet, timeout: u128) -> (scan: Scan)
        ensures
            scan@ == ScanModel::start(patterns@, timeout as nat),
            scan.wf(),
    {
        Scan {
            patterns,
            timeout,
            text: String::new(),
            decoder: Decoder::new(),
            phase: Phase::Clock,
        }
    }

    /// What the scan needs next, or how it ended.
    pub fn phase(&self) -> (phase: Phase)
        ensures
            phase == self@.phase,
    {
        self.phase
    }

    /// The text accumulated so far.
    pub fn text(&self) -> (text: &str)
        ensures
            text@ == self@.text,
    {
        self.text.as_str()
    }

    /// Takes one event and says what the scan needs next, or how it ended.
    pub fn step(&mut self, event: Event) -> (phase: Phase)
        requires
            old(self).wf(),
        ensures
            final(self).wf(),
            final(self)@ == old(self)@.next(event),
            phase == final(self)@.phase,
    {
        match event {
            Event::Clock(elapsed) => {
                if let Phase::Clock = self.phase {
                    if elapsed >= self.timeout {
                        self.phase = Phase::TimedOut;
                    } else {
                        self.phase = Phase::Read;
                    }
                }
            },
            Event::Byte(b) => {
                if let Phase::Read = self.phase {
                    match self.decoder.feed(b) {
                        Decoded::Partial => {},
                        Decoded::Skipped => {
                            self.phase = Phase::Clock;
                        },
                        Decoded::Char(c) => {
                            push_char(&mut self.text, c);
                            match self.patterns.first_match(self.text.as_str()) {
                                Some(i) => {
                                    self.phase = Phase::Matched(i);
                                },
                                None => {
                                    self.phase = Phase::Clock;
                                },
                            }
                        },
                    }
                }
            },
            Event::Silence => {
                if let Phase::Read = self.phase {
                    self.decoder.reset();
                    self.phase = Phase::Clock;
                }
            },
        }
        proof {
            lemma_next_inv(old(self)@, event);
        }
        self.phase
    }

    /// Ends the scan and hands out the text that it accumulated: on a match
    /// all that was read up to and including the match, on a timeout all that
    /// was read until then.
    pub fn into_text(self) -> (text: String)
        ensures
            text@ == self@.text,
    {
        self.text
    }
}

/// A wait begins in a state that satisfies the invariant.
pub proof fn lemma_start_inv(patterns: Seq<Seq<char>>, timeout: nat)
    ensures
        ScanModel::start(patterns, timeout).inv(),
{
}

/// Every event keeps the invariant, the patterns and the timeout.
pub proof fn lemma_next_inv(s: ScanModel, event: Event)
    requires
        s.inv(),
    ensures
        s.next(event).inv(),
        s.next(event).patterns == s.patterns,
        s.next(event).timeout == s.timeout,
{
    let t = s.next(event);
    if t.text != s.text {
        assert forall|n: int| 0 < n < t.text.len() implies first_match(
            t.patterns,
            #[trigger] t.text.take(n),
        ) is None by {
            if n < s.text.len() {
                assert(t.text.take(n) =~= s.text.take(n));
            } else {
                assert(t.text.take(n) =~= s.text);
            }
        }
    }
}

/// Every sequence of events keeps the invariant, the patterns and the timeout.
pub proof fn lemma_run_inv(s: ScanModel, events: Seq<Event>)
    requires
        s.inv(),
    ensures
        s.run(events).inv(),
        s.run(events).patterns == s.patterns,
        s.run(events).timeout == s.timeout,
    decreases events.len(),
{
    if events.len() > 0 {
        lemma_run_inv(s, events.drop_last());
        lemma_next_inv(s.run(events.drop_last()), events.last());
    }
}

} // verus!
