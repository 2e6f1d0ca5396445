use cache_sim::cache::{CacheParameters, CacheStatistics};
use cache_sim::replay::{access, replay, run_trace, MAX_TRACE_LINES};
use cache_sim::trace::{
    find_delimiter, find_line_feed, find_non_space, hex_digit, parse_hex, parse_line, parse_trace,
    AccessKind, AccessRecord, TraceError, TraceFault, TraceLine,
};

fn load(address: u64) -> TraceLine {
    TraceLine::Access(AccessRecord { kind: AccessKind::Load, address })
}

fn store(address: u64) -> TraceLine {
    TraceLine::Access(AccessRecord { kind: AccessKind::Store, address })
}

fn modify(address: u64) -> TraceLine {
    TraceLine::Access(AccessRecord { kind: AccessKind::Modify, address })
}

fn totals(s: u32, b: u32, e: usize, trace: &[TraceLine]) -> (u64, u64, u64) {
    let params = CacheParameters::new(s, b, e).unwrap();
    let stats = run_trace(&params, &trace.to_vec()).unwrap();
    (stats.hits, stats.misses, stats.evictions)
}

fn parse_all(text: &str) -> Vec<TraceLine> {
    text.lines().map(|l| parse_line(l.as_bytes()).unwrap()).collect()
}

#[test]
fn parse_line_reads_each_kind() {
    assert_eq!(parse_line(b" L 7ff0005c8,8"), Ok(load(0x7ff0005c8)));
    assert_eq!(parse_line(b" S 18,1"), Ok(store(0x18)));
    assert_eq!(parse_line(b" M 10,1"), Ok(modify(16)));
    assert_eq!(parse_line(b"I 0400d7d4,8"), Ok(TraceLine::Instruction));
    assert_eq!(parse_line(b"L 0,1"), Ok(load(0)));
}

#[test]
fn parse_line_ignores_leading_white_space() {
    assert_eq!(parse_line(b"   \t L 1f,4"), Ok(load(0x1f)));
    assert_eq!(parse_line(b"  I 0400d7d4,8"), Ok(TraceLine::Instruction));
    assert_eq!(parse_line(b"\r\x0b\x0c M ab,2"), Ok(modify(0xab)));
}

#[test]
fn parse_line_skips_unknown_kinds() {
    assert_eq!(parse_line(b"X 10,1"), Ok(TraceLine::Unrecognized));
    assert_eq!(parse_line(b" l 10,1"), Ok(TraceLine::Unrecognized));
    assert_eq!(parse_line(b"?"), Ok(TraceLine::Unrecognized));
    assert_eq!(parse_line(b"X zz"), Ok(TraceLine::Unrecognized));
}

#[test]
fn parse_line_instruction_needs_no_address() {
    assert_eq!(parse_line(b"I"), Ok(TraceLine::Instruction));
    assert_eq!(parse_line(b"I zz,1"), Ok(TraceLine::Instruction));
}

#[test]
fn parse_line_reports_a_missing_address() {
    assert_eq!(parse_line(b""), Err(TraceError::MissingAddress));
    assert_eq!(parse_line(b"   "), Err(TraceError::MissingAddress));
    assert_eq!(parse_line(b"L"), Err(TraceError::MissingAddress));
    assert_eq!(parse_line(b"L10,1"), Err(TraceError::MissingAddress));
    assert_eq!(parse_line(b"M\t10,1"), Err(TraceError::MissingAddress));
}

#[test]
fn parse_line_reports_an_invalid_address() {
    assert_eq!(parse_line(b"L zz,1"), Err(TraceError::InvalidAddress));
    assert_eq!(parse_line(b"L ,1"), Err(TraceError::InvalidAddress));
    assert_eq!(parse_line(b"L "), Err(TraceError::InvalidAddress));
    assert_eq!(parse_line(b"L  10,1"), Err(TraceError::InvalidAddress));
    assert_eq!(parse_line(b"S 0x10,1"), Err(TraceError::InvalidAddress));
    assert_eq!(parse_line(b"S -1,1"), Err(TraceError::InvalidAddress));
    assert_eq!(parse_line(b"S +,1"), Err(TraceError::InvalidAddress));
    assert_eq!(parse_line(b"M 10000000000000000,1"), Err(TraceError::InvalidAddress));
}

#[test]
fn parse_line_address_ends_at_blank_or_comma() {
    assert_eq!(parse_line(b"L 10"), Ok(load(16)));
    assert_eq!(parse_line(b"L 10 20,1"), Ok(load(16)));
    assert_eq!(parse_line(b"L 10,zz"), Ok(load(16)));
    assert_eq!(parse_line(b"L 1F,4"), Ok(load(31)));
    assert_eq!(parse_line(b"L +1f,4"), Ok(load(31)));
    assert_eq!(parse_line(b"L ffffffffffffffff,1"), Ok(load(u64::MAX)));
    assert_eq!(parse_line(b"L 000000000000000000001,1"), Ok(load(1)));
}

#[test]
fn parse_hex_agrees_with_the_standard_library() {
    let fields = [
        "", "0", "7", "a", "F", "g", "10", "7ff0005c8", "+1f", "+", "++1", "-1", "1 ", " 1",
        "0x10", "ffffffffffffffff", "10000000000000000", "fffffffffffffffff",
        "0000000000000000000000ff", "DeadBeef", "12_34", "1g", "+0",
    ];
    for field in fields {
        let expected = u64::from_str_radix(field, 16).ok();
        assert_eq!(parse_hex(field.as_bytes(), 0, field.len()), expected, "{:?}", field);
    }
}

#[test]
fn parse_hex_reads_only_the_given_range() {
    assert_eq!(parse_hex(b"xx1fzz", 2, 4), Some(0x1f));
    assert_eq!(parse_hex(b"xx1fzz", 2, 5), None);
    assert_eq!(parse_hex(b"xx1fzz", 3, 3), None);
}

#[test]
fn hex_digit_values() {
    assert_eq!(hex_digit(b'0'), Some(0));
    assert_eq!(hex_digit(b'9'), Some(9));
    assert_eq!(hex_digit(b'a'), Some(10));
    assert_eq!(hex_digit(b'f'), Some(15));
    assert_eq!(hex_digit(b'A'), Some(10));
    assert_eq!(hex_digit(b'F'), Some(15));
    for other in [b'g', b'G', b'/', b':', b'@', b'`', b' ', b'+'] {
        assert_eq!(hex_digit(other), None);
    }
}

#[test]
fn find_non_space_and_find_delimiter() {
    assert_eq!(find_non_space(b"  \tL 1,2", 0), 3);
    assert_eq!(find_non_space(b"   ", 0), 3);
    assert_eq!(find_non_space(b"ab", 1), 1);
    assert_eq!(find_delimiter(b"L 10,1", 0, false), 1);
    assert_eq!(find_delimiter(b"L 10,1", 2, true), 4);
    assert_eq!(find_delimiter(b"L 10,1", 2, false), 6);
    assert_eq!(find_delimiter(b"L,10 1", 0, false), 4);
}

#[test]
fn direct_mapped_trace_in_one_set() {
    let trace = parse_all("L 0,1\nL 8,1");
    assert_eq!(totals(1, 1, 1, &trace), (0, 2, 1));
}

#[test]
fn direct_mapped_trace_in_two_sets() {
    let trace = parse_all("L 0,1\nL 2,1");
    assert_eq!(totals(1, 1, 1, &trace), (0, 2, 0));
}

#[test]
fn fully_associative_trace_with_one_eviction() {
    let trace = parse_all("L 0,1\nL 1,1\nL 2,1");
    assert_eq!(totals(0, 0, 2, &trace), (0, 3, 1));
    // The block of address 0 was replaced, that of address 1 was kept.
    let longer = parse_all("L 0,1\nL 1,1\nL 2,1\nL 1,1\nL 0,1");
    assert_eq!(totals(0, 0, 2, &longer), (1, 4, 2));
}

#[test]
fn modify_on_empty_cache_is_a_miss_then_a_hit() {
    let trace = parse_all("M 10,1");
    assert_eq!(trace, vec![modify(0x10)]);
    assert_eq!(totals(0, 0, 1, &trace), (1, 1, 0));
}

#[test]
fn modify_can_evict_on_its_first_half_only() {
    let trace = [load(1), modify(2)];
    assert_eq!(totals(0, 0, 1, &trace), (1, 2, 1));
}

#[test]
fn instruction_lines_do_not_change_counters() {
    let with = parse_all("I 0400d7d4,8\n L 10,1\nI 0400d7d8,4\n M 20,1\nI 0,1\n S 10,1\nI 10,1");
    let without = parse_all(" L 10,1\n M 20,1\n S 10,1");
    assert_eq!(totals(2, 2, 1, &with), totals(2, 2, 1, &without));
    assert_eq!(totals(2, 2, 1, &with), (1, 3, 2));
    let only = [TraceLine::Instruction, TraceLine::Instruction];
    assert_eq!(totals(2, 2, 1, &only), (0, 0, 0));
}

#[test]
fn unrecognized_lines_do_not_change_counters() {
    let trace = [TraceLine::Unrecognized, load(1), TraceLine::Unrecognized];
    assert_eq!(totals(0, 0, 1, &trace), (0, 1, 0));
}

#[test]
fn empty_trace_leaves_counters_at_zero() {
    assert_eq!(totals(3, 3, 2, &[]), (0, 0, 0));
}

#[test]
fn hits_and_misses_count_every_access() {
    let mut trace = Vec::new();
    let mut expected: u64 = 0;
    let mut x: u64 = 12345;
    for i in 0..500u64 {
        x = x.wrapping_mul(6364136223846793005).wrapping_add(1442695040888963407);
        let address = (x >> 40) & 0x3ff;
        match i % 4 {
            0 => {
                trace.push(load(address));
                expected += 1;
            }
            1 => {
                trace.push(store(address));
                expected += 1;
            }
            2 => {
                trace.push(modify(address));
                expected += 2;
            }
            _ => trace.push(TraceLine::Instruction),
        }
    }
    for (s, b, e) in [(0u32, 0u32, 1usize), (2, 2, 2), (4, 1, 1), (1, 3, 4), (0, 4, 8)] {
        let (hits, misses, evictions) = totals(s, b, e, &trace);
        assert_eq!(hits + misses, expected);
        assert!(evictions <= misses);
    }
}

#[test]
fn replaying_twice_gives_the_same_counters() {
    let trace = parse_all(" L 10,1\n M 20,1\n L 22,1\n S 18,1\n L 110,1\n L 210,1\n M 12,1");
    let first = totals(4, 4, 1, &trace);
    let second = totals(4, 4, 1, &trace);
    assert_eq!(first, second);
    assert_eq!(first, (4, 5, 3));
}

#[test]
fn replay_continues_from_the_state_it_is_given() {
    let params = CacheParameters::new(0, 0, 2).unwrap();
    let mut cache = cache_sim::cache::make_cache(params.number_of_sets, params.associativity);
    let mut stats = CacheStatistics::new();
    replay(&mut cache, &params, &mut stats, &vec![load(1), load(2)]);
    assert_eq!((stats.hits, stats.misses, stats.evictions), (0, 2, 0));
    replay(&mut cache, &params, &mut stats, &vec![load(1), TraceLine::Instruction, load(3)]);
    assert_eq!((stats.hits, stats.misses, stats.evictions), (1, 3, 1));
    access(&mut cache, &params, &mut stats, &AccessRecord { kind: AccessKind::Modify, address: 2 });
    assert_eq!((stats.hits, stats.misses, stats.evictions), (2, 4, 2));
    access(&mut cache, &params, &mut stats, &AccessRecord { kind: AccessKind::Store, address: 2 });
    assert_eq!((stats.hits, stats.misses, stats.evictions), (3, 4, 2));
}

#[test]
fn trace_line_limit_is_a_quarter_of_the_u64_range() {
    assert_eq!(MAX_TRACE_LINES, (i64::MAX / 2) as u64);
}

#[test]
fn parse_trace_reads_every_line_in_order() {
    let text = b"I 0400d7d4,8\n L 10,1\n M 20,1\nX 1,1\n S 18,1\n";
    assert_eq!(
        parse_trace(text),
        Ok(vec![
            TraceLine::Instruction,
            load(0x10),
            modify(0x20),
            TraceLine::Unrecognized,
            store(0x18)
        ])
    );
}

#[test]
fn parse_trace_last_line_needs_no_line_feed() {
    assert_eq!(parse_trace(b""), Ok(vec![]));
    assert_eq!(parse_trace(b"L 1,1"), Ok(vec![load(1)]));
    assert_eq!(parse_trace(b"L 1,1\n"), Ok(vec![load(1)]));
    assert_eq!(parse_trace(b"L 1,1\nL 2,1"), Ok(vec![load(1), load(2)]));
}

#[test]
fn parse_trace_drops_a_carriage_return_before_a_line_feed() {
    assert_eq!(parse_trace(b"L 10\r\nS 20\r\n"), Ok(vec![load(0x10), store(0x20)]));
    assert_eq!(
        parse_trace(b"L 10\r"),
        Err(TraceFault { line: 0, error: TraceError::InvalidAddress })
    );
    assert_eq!(
        parse_trace(b"L 10\r\r\n"),
        Err(TraceFault { line: 0, error: TraceError::InvalidAddress })
    );
}

#[test]
fn parse_trace_stops_at_the_first_bad_line() {
    assert_eq!(
        parse_trace(b"L 10,1\nL zz,1\nL\n"),
        Err(TraceFault { line: 1, error: TraceError::InvalidAddress })
    );
    assert_eq!(
        parse_trace(b"L 1,1\n\nL 2,1"),
        Err(TraceFault { line: 1, error: TraceError::MissingAddress })
    );
    assert_eq!(parse_trace(b"\n"), Err(TraceFault { line: 0, error: TraceError::MissingAddress }));
    assert_eq!(
        parse_trace(b"I 1,1\nX\nM"),
        Err(TraceFault { line: 2, error: TraceError::MissingAddress })
    );
}

#[test]
fn parse_trace_splits_lines_as_the_standard_library_does() {
    let texts = [
        "", "\n", "\n\n", "L 1,1", "L 1,1\n", "L 1,1\n\n", "\nL 1,1", "L 1,1\r\n M 2,2\r\n",
        "I 1\nI 2\r\nI 3", "L 1\r", "L 1\r\r\n", "X\n\rY\n", "L 1,1\nS 2,2\nM 3,3\nI 4,4\n",
        "L 1,1\r\nbad\nL", "\r\n", "\r",
    ];
    for text in texts {
        let mut expected: Result<Vec<TraceLine>, TraceFault> = Ok(Vec::new());
        for (index, line) in text.lines().enumerate() {
            match parse_line(line.as_bytes()) {
                Ok(entry) => {
                    if let Ok(entries) = &mut expected {
                        entries.push(entry);
                    }
                }
                Err(error) => {
                    expected = Err(TraceFault { line: index, error });
                    break;
                }
            }
        }
        assert_eq!(parse_trace(text.as_bytes()), expected, "{:?}", text);
    }
}

#[test]
fn find_line_feed_gives_the_end_of_the_line() {
    assert_eq!(find_line_feed(b"ab\ncd\n", 0), 2);
    assert_eq!(find_line_feed(b"ab\ncd\n", 2), 2);
    assert_eq!(find_line_feed(b"ab\ncd\n", 3), 5);
    assert_eq!(find_line_feed(b"ab\ncd", 3), 5);
    assert_eq!(find_line_feed(b"", 0), 0);
}

#[test]
fn whole_trace_from_text_to_counters() {
    let text = b" L 10,1\n M 20,1\n L 22,1\n S 18,1\n L 110,1\n L 210,1\n M 12,1\n";
    let trace = parse_trace(text).unwrap();
    assert_eq!(totals(4, 4, 1, &trace), (4, 5, 3));
    assert_eq!(totals(2, 4, 2, &trace), (4, 5, 2));
}
