use reckon::pattern::PatternSet;
use reckon::scan::{Event, Phase, Scan};

const SECOND: u128 = 1_000_000_000;

fn scan_for(patterns: Vec<&str>, timeout: u128) -> Scan {
    Scan::new(PatternSet::new(&patterns).unwrap(), timeout)
}

/// Answers every request of the scan as a driver does whose clock stands at
/// `now` and whose output holds `bytes` and then ends. Returns once the scan
/// is over or the bytes are used up.
fn drive(scan: &mut Scan, bytes: &[u8], now: u128) -> Phase {
    let mut next = 0;
    loop {
        match scan.phase() {
            Phase::Clock => {
                scan.step(Event::Clock(now));
            }
            Phase::Read => {
                if next == bytes.len() {
                    return Phase::Read;
                }
                scan.step(Event::Byte(bytes[next]));
                next += 1;
            }
            over => return over,
        }
    }
}

#[test]
fn a_scan_begins_by_asking_for_the_clock() {
    let scan = scan_for(vec!["x"], SECOND);
    assert_eq!(scan.phase(), Phase::Clock);
    assert_eq!(scan.text(), "");
}

#[test]
fn clock_before_the_timeout_lets_the_scan_read() {
    let mut scan = scan_for(vec!["x"], SECOND);
    assert_eq!(scan.step(Event::Clock(SECOND - 1)), Phase::Read);
}

#[test]
fn clock_at_the_timeout_ends_the_scan() {
    let mut scan = scan_for(vec!["x"], SECOND);
    assert_eq!(scan.step(Event::Clock(SECOND)), Phase::TimedOut);
    assert_eq!(scan.into_text(), String::new());
}

#[test]
fn clock_after_the_timeout_ends_the_scan() {
    let mut scan = scan_for(vec!["x"], SECOND);
    assert_eq!(scan.step(Event::Clock(SECOND + 1)), Phase::TimedOut);
}

#[test]
fn zero_timeout_ends_at_the_first_clock_reading() {
    let mut scan = scan_for(vec!["x"], 0);
    assert_eq!(scan.step(Event::Clock(0)), Phase::TimedOut);
    assert_eq!(scan.into_text(), String::new());
}

#[test]
fn echoed_line_matches_at_its_last_character() {
    let mut scan = scan_for(vec!["Hello"], SECOND);
    assert_eq!(drive(&mut scan, b"Hello\n", 0), Phase::Matched(0));
    assert!(scan.text().contains("Hello"));
    assert_eq!(scan.into_text(), String::from("Hello"));
}

#[test]
fn later_pattern_wins_where_the_earlier_never_appears() {
    let mut scan = scan_for(vec!["!", "no route to re1"], SECOND);
    assert_eq!(drive(&mut scan, b"no route to re1", 0), Phase::Matched(1));
    assert_eq!(scan.into_text(), String::from("no route to re1"));
}

#[test]
fn match_returns_all_that_was_read_before_it() {
    let mut scan = scan_for(vec!["\\$ $"], SECOND);
    assert_eq!(
        drive(&mut scan, b"login ok\nuser@host $ ls\n", 0),
        Phase::Matched(0)
    );
    assert_eq!(scan.into_text(), String::from("login ok\nuser@host $ "));
}

#[test]
fn patterns_are_tested_after_every_character() {
    let mut scan = scan_for(vec!["b", "abc"], SECOND);
    assert_eq!(drive(&mut scan, b"abc", 0), Phase::Matched(0));
    assert_eq!(scan.text(), "ab");
}

#[test]
fn simultaneous_matches_go_by_the_order_of_the_list() {
    let mut scan = scan_for(vec!["ab", "b"], SECOND);
    assert_eq!(drive(&mut scan, b"ab", 0), Phase::Matched(0));
    let mut scan = scan_for(vec!["b", "ab"], SECOND);
    assert_eq!(drive(&mut scan, b"ab", 0), Phase::Matched(0));
    let mut scan = scan_for(vec!["x", "b", "ab"], SECOND);
    assert_eq!(drive(&mut scan, b"ab", 0), Phase::Matched(1));
}

#[test]
fn earlier_match_in_time_beats_earlier_place_in_the_list() {
    let mut scan = scan_for(vec!["c", "a"], SECOND);
    assert_eq!(drive(&mut scan, b"abc", 0), Phase::Matched(1));
    assert_eq!(scan.text(), "a");
}

#[test]
fn silent_output_times_out_with_nothing_accumulated() {
    let mut scan = scan_for(vec!["x", "a*", ""], SECOND);
    let mut now = 0;
    while now < SECOND {
        assert_eq!(scan.step(Event::Clock(now)), Phase::Read);
        assert_eq!(scan.step(Event::Silence), Phase::Clock);
        now += SECOND / 4;
    }
    assert_eq!(scan.step(Event::Clock(now)), Phase::TimedOut);
    assert_eq!(scan.into_text(), String::new());
}

#[test]
fn empty_text_is_never_tested() {
    let mut scan = scan_for(vec!["^$"], SECOND);
    assert_eq!(scan.step(Event::Clock(0)), Phase::Read);
    assert_eq!(scan.step(Event::Silence), Phase::Clock);
    assert_eq!(scan.step(Event::Clock(0)), Phase::Read);
    assert_eq!(scan.step(Event::Byte(0xff)), Phase::Clock);
    assert_eq!(scan.text(), "");
}

#[test]
fn timeout_keeps_what_was_read() {
    let mut scan = scan_for(vec!["!"], SECOND);
    assert_eq!(drive(&mut scan, b"nope\n", 0), Phase::Read);
    assert_eq!(scan.step(Event::Silence), Phase::Clock);
    assert_eq!(scan.step(Event::Clock(SECOND)), Phase::TimedOut);
    assert_eq!(scan.into_text(), String::from("nope\n"));
}

#[test]
fn each_scan_begins_with_nothing() {
    let stream = b"abc!";
    let mut first = scan_for(vec!["!"], SECOND);
    assert_eq!(drive(&mut first, &stream[..3], 0), Phase::Read);
    assert_eq!(first.step(Event::Silence), Phase::Clock);
    assert_eq!(first.step(Event::Clock(SECOND)), Phase::TimedOut);
    let lost = first.into_text();
    assert_eq!(lost, "abc");

    let mut second = scan_for(vec!["!"], SECOND);
    assert_eq!(second.text(), "");
    assert_eq!(drive(&mut second, &stream[3..], 0), Phase::Matched(0));
    let found = second.into_text();
    assert_eq!(found, "!");
    assert_ne!(format!("{}{}", lost, found).as_str(), found.as_str());
    assert_ne!(found.as_bytes(), &stream[..]);
}

#[test]
fn marker_read_by_an_earlier_scan_is_not_seen_again() {
    let mut first = scan_for(vec!["ready"], SECOND);
    assert_eq!(drive(&mut first, b"ready", 0), Phase::Matched(0));
    let mut second = scan_for(vec!["ready"], SECOND);
    assert_eq!(drive(&mut second, b" to go", 0), Phase::Read);
    assert_eq!(second.text(), " to go");
}

#[test]
fn multi_byte_characters_are_accumulated_whole() {
    let mut scan = scan_for(vec!["\u{20ac}5"], SECOND);
    assert_eq!(scan.step(Event::Clock(0)), Phase::Read);
    assert_eq!(scan.step(Event::Byte(0xe2)), Phase::Read);
    assert_eq!(scan.step(Event::Byte(0x82)), Phase::Read);
    assert_eq!(scan.text(), "");
    assert_eq!(scan.step(Event::Byte(0xac)), Phase::Clock);
    assert_eq!(scan.text(), "\u{20ac}");
    assert_eq!(scan.step(Event::Clock(0)), Phase::Read);
    assert_eq!(scan.step(Event::Byte(b'5')), Phase::Matched(0));
    assert_eq!(scan.into_text(), String::from("\u{20ac}5"));
}

#[test]
fn clock_is_not_asked_inside_a_character() {
    let mut scan = scan_for(vec!["x"], SECOND);
    assert_eq!(scan.step(Event::Clock(0)), Phase::Read);
    assert_eq!(scan.step(Event::Byte(0xf0)), Phase::Read);
    assert_eq!(scan.step(Event::Clock(2 * SECOND)), Phase::Read);
    assert_eq!(scan.step(Event::Byte(0x9f)), Phase::Read);
    assert_eq!(scan.step(Event::Byte(0x98)), Phase::Read);
    assert_eq!(scan.step(Event::Byte(0x80)), Phase::Clock);
    assert_eq!(scan.text(), "\u{1f600}");
    assert_eq!(scan.step(Event::Clock(2 * SECOND)), Phase::TimedOut);
}

#[test]
fn undecodable_bytes_are_skipped_without_a_trace() {
    let mut scan = scan_for(vec!["ok"], SECOND);
    assert_eq!(
        drive(&mut scan, &[0xff, b'o', 0x80, 0xc0, b'k'], 0),
        Phase::Matched(0)
    );
    assert_eq!(scan.into_text(), String::from("ok"));
}

#[test]
fn skipped_unit_sends_the_scan_back_to_the_clock() {
    let mut scan = scan_for(vec!["x"], SECOND);
    assert_eq!(scan.step(Event::Clock(0)), Phase::Read);
    assert_eq!(scan.step(Event::Byte(0x80)), Phase::Clock);
    assert_eq!(scan.step(Event::Clock(SECOND)), Phase::TimedOut);
    assert_eq!(scan.into_text(), String::new());
}

#[test]
fn output_that_ends_inside_a_character_drops_its_bytes() {
    let mut scan = scan_for(vec!["\u{e9}", "A"], SECOND);
    assert_eq!(scan.step(Event::Clock(0)), Phase::Read);
    assert_eq!(scan.step(Event::Byte(0xc3)), Phase::Read);
    assert_eq!(scan.step(Event::Silence), Phase::Clock);
    assert_eq!(scan.step(Event::Clock(0)), Phase::Read);
    assert_eq!(scan.step(Event::Byte(0xa9)), Phase::Clock);
    assert_eq!(scan.text(), "");
    assert_eq!(scan.step(Event::Clock(0)), Phase::Read);
    assert_eq!(scan.step(Event::Byte(b'A')), Phase::Matched(1));
}

#[test]
fn events_that_were_not_asked_for_change_nothing() {
    let mut scan = scan_for(vec!["a"], SECOND);
    assert_eq!(scan.step(Event::Byte(b'a')), Phase::Clock);
    assert_eq!(scan.step(Event::Silence), Phase::Clock);
    assert_eq!(scan.text(), "");
    assert_eq!(scan.step(Event::Clock(0)), Phase::Read);
    assert_eq!(scan.step(Event::Clock(SECOND)), Phase::Read);
    assert_eq!(scan.step(Event::Byte(b'a')), Phase::Matched(0));
}

#[test]
fn a_scan_that_is_over_stays_as_it_is() {
    let mut scan = scan_for(vec!["a"], SECOND);
    assert_eq!(drive(&mut scan, b"a", 0), Phase::Matched(0));
    assert_eq!(scan.step(Event::Byte(b'b')), Phase::Matched(0));
    assert_eq!(scan.step(Event::Clock(SECOND)), Phase::Matched(0));
    assert_eq!(scan.step(Event::Silence), Phase::Matched(0));
    assert_eq!(scan.text(), "a");

    let mut scan = scan_for(vec!["a"], SECOND);
    assert_eq!(scan.step(Event::Clock(SECOND)), Phase::TimedOut);
    assert_eq!(scan.step(Event::Clock(0)), Phase::TimedOut);
    assert_eq!(scan.step(Event::Byte(b'a')), Phase::TimedOut);
    assert_eq!(scan.text(), "");
}

#[test]
fn match_found_late_is_still_a_match() {
    let mut scan = scan_for(vec!["a"], SECOND);
    assert_eq!(scan.step(Event::Clock(SECOND - 1)), Phase::Read);
    assert_eq!(scan.step(Event::Byte(b'a')), Phase::Matched(0));
}

#[test]
fn empty_pattern_set_can_only_time_out() {
    let mut scan = scan_for(vec![], SECOND);
    assert_eq!(drive(&mut scan, b"anything at all", 0), Phase::Read);
    assert_eq!(scan.step(Event::Silence), Phase::Clock);
    assert_eq!(scan.step(Event::Clock(SECOND)), Phase::TimedOut);
    assert_eq!(scan.into_text(), String::from("anything at all"));
}

#[test]
fn text_holds_no_more_characters_than_bytes_were_fed() {
    let bytes = "a\u{e9}\u{20ac}\u{1f600}".as_bytes();
    let mut scan = scan_for(vec!["never"], SECOND);
    let mut fed = 0;
    for b in bytes {
        if scan.phase() == Phase::Clock {
            scan.step(Event::Clock(0));
        }
        scan.step(Event::Byte(*b));
        fed += 1;
        assert!(scan.text().chars().count() <= fed);
    }
    assert_eq!(scan.text(), "a\u{e9}\u{20ac}\u{1f600}");
}
