//! What holds of every wait, proved of the state machine in [`crate::scan`].
//!
//! The laws speak of the states that sequences of events lead to, and of the
//! state in which a driver that answers every request leaves a scan.
use crate::decode::{
    decoded, held_after, lemma_decoded_open_unit, lemma_decoded_unit, lemma_decodes_encoded_text,
    unit_char, unit_open, unit_width,
};
use crate::pattern::{first_match, lemma_first_match, lowest_match, no_match};
use crate::scan::{lemma_next_inv, lemma_run_inv, Event, Phase, ScanModel};
use vstd::prelude::*;
use vstd::utf8::*;

verus! {

/// A wait that is over stays as it is, whatever is reported to it.
pub proof fn lemma_finished_is_final(s: ScanModel, events: Seq<Event>)
    requires
        s.finished(),
    ensures
        s.run(events) == s,
    decreases events.len(),
{
    if events.len() > 0 {
        lemma_finished_is_final(s, events.drop_last());
    }
}

/// The accumulated text only grows, and only at its end: what a wait has
/// accumulated stays in front of whatever it accumulates later.
pub proof fn lemma_text_only_grows(s: ScanModel, events: Seq<Event>)
    ensures
        s.text.is_prefix_of(s.run(events).text),
    decreases events.len(),
{
    if events.len() > 0 {
        lemma_text_only_grows(s, events.drop_last());
    }
}

/// A wait that ends in a match, after any events at all, names a pattern that
/// matches the accumulated text, and the first such pattern in the caller's
/// order; and the text is the shortest that any pattern matched: at every
/// earlier length no pattern matched it.
pub proof fn lemma_match_is_first(patterns: Seq<Seq<char>>, timeout: nat, events: Seq<Event>)
    ensures
        ({
            let s = ScanModel::start(patterns, timeout).run(events);
            s.phase matches Phase::Matched(i) ==> {
                &&& s.text.len() > 0
                &&& lowest_match(patterns, i as int, s.text)
                &&& forall|n: int|
                    0 < n < s.text.len() ==> no_match(patterns, #[trigger] s.text.take(n))
            }
        }),
{
    let s = ScanModel::start(patterns, timeout).run(events);
    lemma_run_inv(ScanModel::start(patterns, timeout), events);
    if s.phase is Matched {
        lemma_first_match(patterns, s.text);
        assert forall|n: int| 0 < n < s.text.len() implies no_match(
            patterns,
            #[trigger] s.text.take(n),
        ) by {
            lemma_first_match(patterns, s.text.take(n));
        }
    }
}

/// No event among `events` is a byte.
pub open spec fn silent(events: Seq<Event>) -> bool {
    forall|k: int| 0 <= k < events.len() ==> !(#[trigger] events[k] is Byte)
}

/// The scan asked for the clock after the first `k` events, and event `k`
/// answered with a reading that has reached the timeout.
pub open spec fn deadline_seen(
    patterns: Seq<Seq<char>>,
    timeout: nat,
    events: Seq<Event>,
    k: int,
) -> bool {
    &&& 0 <= k < events.len()
    &&& events[k] matches Event::Clock(elapsed) && elapsed >= timeout
    &&& ScanModel::start(patterns, timeout).run(events.take(k)).phase is Clock
}

/// While the output gives no byte, a wait accumulates nothing and matches
/// nothing, whatever its patterns are. It ends, in a timeout, exactly when the
/// clock is read, on the scan's request, at or after the timeout.
pub proof fn lemma_silent_output_times_out(
    patterns: Seq<Seq<char>>,
    timeout: nat,
    events: Seq<Event>,
)
    requires
        silent(events),
    ensures
        ({
            let s = ScanModel::start(patterns, timeout).run(events);
            &&& s.text.len() == 0
            &&& s.held.len() == 0
            &&& !(s.phase is Matched)
            &&& s.phase is TimedOut <==> exists|k: int|
                deadline_seen(patterns, timeout, events, k)
        }),
    decreases events.len(),
{
    let start = ScanModel::start(patterns, timeout);
    if events.len() > 0 {
        let before = events.drop_last();
        let last = events.len() - 1;
        assert(silent(before));
        lemma_silent_output_times_out(patterns, timeout, before);
        lemma_run_inv(start, before);
        assert(events.take(last) =~= before);
        assert forall|k: int| 0 <= k < last implies deadline_seen(patterns, timeout, before, k)
            == deadline_seen(patterns, timeout, events, k) by {
            assert(before.take(k) =~= events.take(k));
        }
        if start.run(before).phase is TimedOut {
            let k = choose|k: int| deadline_seen(patterns, timeout, before, k);
            assert(deadline_seen(patterns, timeout, events, k));
        } else if start.run(events).phase is TimedOut {
            assert(deadline_seen(patterns, timeout, events, last));
        }
    }
}

/// The bytes among `events`, in their order.
pub open spec fn bytes_of(events: Seq<Event>) -> Seq<u8>
    decreases events.len(),
{
    if events.len() == 0 {
        Seq::empty()
    } else {
        match events.last() {
            Event::Byte(b) => bytes_of(events.drop_last()).push(b),
            _ => bytes_of(events.drop_last()),
        }
    }
}

/// A wait holds nothing but what it was given itself. It begins with nothing,
/// whatever earlier waits read and left unmatched, and each character that it
/// has accumulated and each byte that it holds back accounts for a byte of its
/// own that it has used up.
pub proof fn lemma_text_comes_from_own_bytes(
    patterns: Seq<Seq<char>>,
    timeout: nat,
    events: Seq<Event>,
)
    ensures
        ScanModel::start(patterns, timeout).text.len() == 0,
        ScanModel::start(patterns, timeout).held.len() == 0,
        ({
            let s = ScanModel::start(patterns, timeout).run(events);
            s.text.len() + s.held.len() <= bytes_of(events).len()
        }),
    decreases events.len(),
{
    if events.len() > 0 {
        lemma_text_comes_from_own_bytes(patterns, timeout, events.drop_last());
    }
}

/// An event and then a sequence of events is one sequence of events.
pub proof fn lemma_run_after_next(s: ScanModel, event: Event, events: Seq<Event>)
    ensures
        s.next(event).run(events) == s.run(seq![event] + events),
    decreases events.len(),
{
    let all = seq![event] + events;
    if events.len() == 0 {
        assert(s.run(all.drop_last()) == s);
    } else {
        lemma_run_after_next(s, event, events.drop_last());
        assert(all.drop_last() =~= seq![event] + events.drop_last());
    }
}

/// What a driver does that answers each request is a sequence of events: the
/// state in which it leaves the scan is one that the events lead to, and the
/// bytes among them are the bytes that it has handed over.
pub proof fn lemma_fed_is_a_run(s: ScanModel, now: u128, bytes: Seq<u8>) -> (events: Seq<Event>)
    ensures
        s.fed(now, bytes) == s.run(events),
        bytes_of(events).is_prefix_of(bytes),
    decreases bytes.len(), (if s.phase is Clock { 1nat } else { 0nat }),
{
    if s.phase is Clock {
        let event = Event::Clock(now);
        let rest = lemma_fed_is_a_run(s.next(event), now, bytes);
        lemma_run_after_next(s, event, rest);
        lemma_bytes_of_after(event, rest);
        seq![event] + rest
    } else if s.phase is Read && bytes.len() > 0 {
        let event = Event::Byte(bytes[0]);
        let rest = lemma_fed_is_a_run(s.next(event), now, bytes.drop_first());
        lemma_run_after_next(s, event, rest);
        lemma_bytes_of_after(event, rest);
        assert(bytes =~= seq![bytes[0]] + bytes.drop_first());
        seq![event] + rest
    } else {
        Seq::empty()
    }
}

proof fn lemma_bytes_of_after(event: Event, events: Seq<Event>)
    ensures
        bytes_of(seq![event] + events) == bytes_of(seq![event]) + bytes_of(events),
        bytes_of(seq![event]) == (match event {
            Event::Byte(b) => seq![b],
            _ => Seq::<u8>::empty(),
        }),
    decreases events.len(),
{
    let all = seq![event] + events;
    assert(seq![event].drop_last() =~= Seq::<Event>::empty());
    assert(bytes_of(Seq::<Event>::empty()) =~= Seq::<u8>::empty());
    assert(bytes_of(seq![event]) =~= (match event {
        Event::Byte(b) => seq![b],
        _ => Seq::<u8>::empty(),
    }));
    if events.len() == 0 {
        assert(bytes_of(seq![event]) + bytes_of(events) =~= bytes_of(seq![event]));
    } else {
        lemma_bytes_of_after(event, events.drop_last());
        assert(all.drop_last() =~= seq![event] + events.drop_last());
        assert(bytes_of(all) =~= bytes_of(seq![event]) + bytes_of(events));
    }
}

/// Some pattern matches the first `n` characters of `text`, and `n` is not 0:
/// the empty text is never tested.
pub open spec fn hit(patterns: Seq<Seq<char>>, text: Seq<char>, n: int) -> bool {
    0 < n <= text.len() && first_match(patterns, text.take(n)) is Some
}

/// A wait that reads `text` stops after `n` characters: there some pattern
/// matches for the first time, or there the text ends and none has matched.
pub open spec fn stops_at(patterns: Seq<Seq<char>>, text: Seq<char>, n: int) -> bool {
    &&& 0 <= n <= text.len()
    &&& forall|k: int| 0 <= k < n ==> !hit(patterns, text, k)
    &&& hit(patterns, text, n) || n == text.len()
}

/// The state after the unit that `bytes` begin with has been read.
spec fn after_unit(s: ScanModel, bytes: Seq<u8>) -> ScanModel {
    match unit_char(bytes.take(unit_width(bytes[0]) as int)) {
        Some(c) => ScanModel {
            text: s.text.push(c),
            held: Seq::empty(),
            phase: match first_match(s.patterns, s.text.push(c)) {
                Some(i) => Phase::Matched(i),
                None => Phase::Clock,
            },
            ..s
        },
        None => ScanModel { held: Seq::empty(), phase: Phase::Clock, ..s },
    }
}

proof fn lemma_fed_unit(s: ScanModel, now: u128, bytes: Seq<u8>, i: int)
    requires
        s.phase is Read,
        bytes.len() > 0,
        0 <= i < unit_width(bytes[0]) <= bytes.len(),
        s.held == bytes.take(i),
    ensures
        s.fed(now, bytes.skip(i)) == after_unit(s, bytes).fed(
            now,
            bytes.skip(unit_width(bytes[0]) as int),
        ),
    decreases unit_width(bytes[0]) - i,
{
    let w = unit_width(bytes[0]) as int;
    let rest = bytes.skip(i);
    assert(rest[0] == bytes[i]);
    assert(s.held.push(rest[0]) =~= bytes.take(i + 1));
    assert(bytes.take(i + 1)[0] == bytes[0]);
    assert(rest.drop_first() =~= bytes.skip(i + 1));
    if i + 1 < w {
        let t = s.on_byte(rest[0]);
        assert(after_unit(t, bytes) == after_unit(s, bytes));
        lemma_fed_unit(t, now, bytes, i + 1);
    }
}

proof fn lemma_fed_open_unit(s: ScanModel, now: u128, bytes: Seq<u8>, i: int)
    requires
        s.phase is Read,
        0 <= i <= bytes.len(),
        unit_open(bytes),
        s.held == bytes.take(i),
    ensures
        s.fed(now, bytes.skip(i)) == (ScanModel { held: bytes, ..s }),
    decreases bytes.len() - i,
{
    if i < bytes.len() {
        let rest = bytes.skip(i);
        assert(rest[0] == bytes[i]);
        assert(s.held.push(rest[0]) =~= bytes.take(i + 1));
        assert(bytes.take(i + 1)[0] == bytes[0]);
        assert(rest.drop_first() =~= bytes.skip(i + 1));
        lemma_fed_open_unit(s.on_byte(rest[0]), now, bytes, i + 1);
    } else {
        assert(bytes.take(i) =~= bytes);
    }
}

proof fn lemma_fed_bytes(s: ScanModel, now: u128, bytes: Seq<u8>, n: int)
    requires
        s.inv(),
        now < s.timeout,
        s.phase is Clock || s.phase is Read,
        s.held.len() == 0,
        s.text.len() <= n,
        stops_at(s.patterns, s.text + decoded(Seq::empty(), bytes), n),
    ensures
        ({
            let text = s.text + decoded(Seq::empty(), bytes);
            let end = s.fed(now, bytes);
            &&& end.text == text.take(n)
            &&& end.phase == (if hit(s.patterns, text, n) {
                Phase::Matched(first_match(s.patterns, text.take(n)).unwrap())
            } else {
                Phase::Read
            })
            &&& !hit(s.patterns, text, n) ==> end.held == held_after(Seq::empty(), bytes)
        }),
    decreases bytes.len(), (if s.phase is Clock { 1nat } else { 0nat }),
{
    let none = Seq::<u8>::empty();
    let more = decoded(none, bytes);
    let text = s.text + more;
    let k = s.text.len() as int;
    assert(s.held =~= none);
    assert(bytes.take(0) =~= none);
    assert(bytes.skip(0) =~= bytes);
    assert(text.take(k) =~= s.text);
    assert(!hit(s.patterns, text, k));
    if s.phase is Clock {
        lemma_next_inv(s, Event::Clock(now));
        lemma_fed_bytes(s.on_clock(now as nat), now, bytes, n);
    } else if bytes.len() == 0 {
        assert(text =~= s.text);
    } else if unit_width(bytes[0]) > bytes.len() {
        lemma_fed_open_unit(s, now, bytes, 0);
        lemma_decoded_open_unit(bytes, 0);
        assert(text =~= s.text);
    } else if unit_width(bytes[0]) == 0 {
        assert(none.push(bytes[0]) =~= seq![bytes[0]]);
        assert(more == decoded(none, bytes.drop_first()));
        lemma_next_inv(s, Event::Byte(bytes[0]));
        lemma_fed_bytes(s.on_byte(bytes[0]), now, bytes.drop_first(), n);
    } else {
        let w = unit_width(bytes[0]) as int;
        lemma_fed_unit(s, now, bytes, 0);
        lemma_decoded_unit(bytes, 0);
        let t = after_unit(s, bytes);
        let behind = decoded(none, bytes.skip(w));
        match unit_char(bytes.take(w)) {
            Some(c) => {
                assert(more == seq![c] + behind);
                assert(text =~= s.text.push(c) + behind);
                assert(text.take(k + 1) =~= s.text.push(c));
                assert(n > k);
                if !hit(s.patterns, text, k + 1) {
                    assert(t.inv()) by {
                        assert forall|m: int| 0 < m < t.text.len() implies first_match(
                            t.patterns,
                            #[trigger] t.text.take(m),
                        ) is None by {
                            assert(t.text.take(m) =~= text.take(m));
                            assert(!hit(s.patterns, text, m));
                        }
                    }
                    lemma_fed_bytes(t, now, bytes.skip(w), n);
                }
            },
            None => {
                assert(more =~= behind);
                lemma_fed_bytes(t, now, bytes.skip(w), n);
            },
        }
    }
}

/// What a wait makes of any output. Let a driver answer the scan's requests
/// from a clock that has not reached the timeout and from `bytes`. Of the
/// characters that the decoder makes of the bytes, the scan accumulates those
/// up to the first after which some pattern matches all that was accumulated,
/// and ends there, naming the first such pattern in the caller's order. Where
/// no pattern ever matches, it has accumulated them all, holds back what the
/// decoder holds back, and asks for more.
pub proof fn lemma_wait_stops_at_first_match(
    patterns: Seq<Seq<char>>,
    timeout: nat,
    now: u128,
    bytes: Seq<u8>,
    n: int,
)
    requires
        now < timeout,
        stops_at(patterns, decoded(Seq::empty(), bytes), n),
    ensures
        ({
            let text = decoded(Seq::empty(), bytes);
            let end = ScanModel::start(patterns, timeout).fed(now, bytes);
            &&& end.text == text.take(n)
            &&& end.phase == (if hit(patterns, text, n) {
                Phase::Matched(first_match(patterns, text.take(n)).unwrap())
            } else {
                Phase::Read
            })
            &&& !hit(patterns, text, n) ==> end.held == held_after(Seq::empty(), bytes)
        }),
{
    let start = ScanModel::start(patterns, timeout);
    assert(start.text + decoded(Seq::empty(), bytes) =~= decoded(Seq::empty(), bytes));
    lemma_fed_bytes(start, now, bytes, n);
}

/// What a wait makes of well-formed output: where the bytes are the UTF-8
/// encoding of `text`, the characters that the scan works on are those of
/// `text`. It stops after the shortest beginning of `text` that some pattern
/// matches, and has accumulated the whole of `text` where none does.
pub proof fn lemma_wait_on_text(
    patterns: Seq<Seq<char>>,
    timeout: nat,
    now: u128,
    text: Seq<char>,
    n: int,
)
    requires
        now < timeout,
        stops_at(patterns, text, n),
    ensures
        ({
            let end = ScanModel::start(patterns, timeout).fed(now, encode_utf8(text));
            &&& end.text == text.take(n)
            &&& end.held.len() == 0
            &&& end.phase == (if hit(patterns, text, n) {
                Phase::Matched(first_match(patterns, text.take(n)).unwrap())
            } else {
                Phase::Read
            })
        }),
{
    lemma_decodes_encoded_text(text);
    lemma_wait_stops_at_first_match(patterns, timeout, now, encode_utf8(text), n);
    let start = ScanModel::start(patterns, timeout);
    let events = lemma_fed_is_a_run(start, now, encode_utf8(text));
    lemma_run_inv(start, events);
}

} // verus!
