use dram_mapper::args::{classify, parse_args, Flag, ParsedArgs};
use dram_mapper::config::{BenchMode, HUGE_PAGE_SIZE};
use dram_mapper::hugepages::{parse_page_count, Action, Reservation, Stage};
use dram_mapper::meminfo::read_meminfo_mb;
use dram_mapper::plan::{physical_range, progress, region_vaddrs, usable_mb, AllocationPlan};
use dram_mapper::text::{
    chars_of, parse_number, render_number, second_word, starts_with, trim, whitespace,
};

const MEMINFO: &str = "MemTotal:       98304000 kB\nMemFree:        1000 kB\n\
MemAvailable:   65536000 kB\nBuffers: 1 kB\n";

fn parse(args: &[&str]) -> ParsedArgs {
    let mut all = vec!["dram-mapper".to_string()];
    all.extend(args.iter().map(|a| a.to_string()));
    parse_args(&all)
}

#[test]
fn modes_have_their_parameters() {
    let fast = BenchMode::fast();
    assert_eq!(
        (fast.name, fast.seq_passes, fast.random_accesses, fast.warmup_passes),
        ("FAST", 2, 500, 1)
    );
    let balanced = BenchMode::balanced();
    assert_eq!(
        (
            balanced.name,
            balanced.seq_passes,
            balanced.random_accesses,
            balanced.warmup_passes
        ),
        ("BALANCED", 5, 2000, 2)
    );
    let precise = BenchMode::precise();
    assert_eq!(
        (precise.name, precise.seq_passes, precise.random_accesses, precise.warmup_passes),
        ("PRECISE", 20, 10000, 3)
    );
}

#[test]
fn no_arguments_mean_the_defaults() {
    let parsed = parse(&[]);
    assert_eq!(parsed.mode.name, "FAST");
    assert!(!parsed.verbose && !parsed.help);
    assert_eq!(parsed.limit_mb, None);
    assert!(parsed.unknown.is_empty());
    let nameless = parse_args(&Vec::new());
    assert_eq!(nameless.mode.name, "FAST");
}

#[test]
fn documented_command_lines_parse() {
    assert_eq!(parse(&["--fast"]).mode.name, "FAST");
    assert_eq!(parse(&["--balanced"]).mode.name, "BALANCED");
    assert_eq!(parse(&["--precise"]).mode.name, "PRECISE");
    let limited = parse(&["--fast", "--limit", "8192"]);
    assert_eq!((limited.mode.name, limited.limit_mb), ("FAST", Some(8192)));
    let verbose = parse(&["--fast", "--verbose"]);
    assert!(verbose.verbose);
    let short = parse(&["-b", "-v", "-l", "+16"]);
    assert_eq!((short.mode.name, short.verbose, short.limit_mb), ("BALANCED", true, Some(16)));
    assert_eq!(parse(&["-p", "-f"]).mode.name, "FAST");
    assert_eq!(parse(&["-f", "-p"]).mode.name, "PRECISE");
}

#[test]
fn limits_are_replaced_or_removed() {
    assert_eq!(parse(&["-l", "1", "-l", "2"]).limit_mb, Some(2));
    assert_eq!(parse(&["-l", "1", "-l", "many"]).limit_mb, None);
    assert_eq!(parse(&["-l", "1", "-l"]).limit_mb, Some(1));
    assert_eq!(parse(&["-l", "-5"]).limit_mb, None);
    assert_eq!(parse(&["-l", "99999999999999999999"]).limit_mb, None);
    let swallowed = parse(&["-l", "--help", "-v"]);
    assert_eq!((swallowed.limit_mb, swallowed.help, swallowed.verbose), (None, false, true));
}

#[test]
fn unknown_arguments_are_reported_and_change_nothing() {
    let parsed = parse(&["-x", "-v", "--fas", "", "-p"]);
    assert_eq!(parsed.unknown, vec![1, 3, 4]);
    assert!(parsed.verbose);
    assert_eq!(parsed.mode.name, "PRECISE");
}

#[test]
fn unknown_arguments_between_flags_move_the_others_on() {
    let without = parse(&["-x", "--precise", "--limit", "64", "y", "-v"]);
    assert_eq!(without.unknown, vec![1, 5]);
    for (at, unknown) in [
        (1, vec![1, 2, 6]),
        (2, vec![1, 2, 6]),
        (3, vec![1, 3, 6]),
        (5, vec![1, 5, 6]),
        (6, vec![1, 5, 6]),
        (7, vec![1, 5, 7]),
    ] {
        let mut args = vec!["-x", "--precise", "--limit", "64", "y", "-v"];
        args.insert(at - 1, "--what");
        let with = parse(&args);
        assert_eq!(with.unknown, unknown);
        assert_eq!(with.limit_mb, Some(64));
        assert!(with.verbose && !with.help);
        assert_eq!(with.mode.seq_passes, without.mode.seq_passes);
    }
    let last_is_a_value = parse(&["--limit", "-l", "--what"]);
    assert_eq!(last_is_a_value.unknown, vec![3]);
    assert_eq!(last_is_a_value.limit_mb, None);
}

#[test]
fn help_ends_the_reading() {
    let parsed = parse(&["what", "-p", "-h", "-v", "-y"]);
    assert!(parsed.help);
    assert!(!parsed.verbose);
    assert_eq!(parsed.mode.name, "PRECISE");
    assert_eq!(parsed.unknown, vec![1]);
    assert!(parse(&["--help"]).help);
}

#[test]
fn flags_are_recognised_exactly() {
    assert_eq!(classify(&"--limit".to_string()), Flag::Limit);
    assert_eq!(classify(&"--Limit".to_string()), Flag::Unknown);
    assert_eq!(classify(&"--limit ".to_string()), Flag::Unknown);
    assert_eq!(classify(&"-h".to_string()), Flag::Help);
}

#[test]
fn whitespace_agrees_with_the_standard_library() {
    for code in 0..=0x10ffffu32 {
        if let Some(c) = char::from_u32(code) {
            assert_eq!(whitespace(c), c.is_whitespace());
        }
    }
}

#[test]
fn numbers_parse_as_in_the_standard_library() {
    for text in [
        "", "+", "-", "0", "+0", "-0", "7", "+7", "++7", "007", "18446744073709551615",
        "18446744073709551616", "00018446744073709551615", "99999999999999999999999", "1x", "x1",
        " 1", "1 ", "1_000", "\u{664}", "4+", "1.5",
    ] {
        assert_eq!(parse_number(&chars_of(text)), text.parse::<usize>().ok());
    }
}

#[test]
fn numbers_render_as_in_the_standard_library() {
    for n in [0usize, 1, 9, 10, 11, 99, 100, 4096, 1234567890, usize::MAX] {
        assert_eq!(render_number(n), n.to_string());
        assert_eq!(parse_number(&chars_of(&render_number(n))), Some(n));
    }
}

#[test]
fn words_and_ends_split_as_in_the_standard_library() {
    for text in [
        "", " ", "a", " a ", "a b", "  a\tb c", "a\u{2003}b", "\u{a0}x\u{3000}y\u{85}", "a b ",
        "ab", "\r\n", "\u{200b}a b",
    ] {
        let chars = chars_of(text);
        let expected: Option<Vec<char>> = text.split_whitespace().nth(1).map(|w| w.chars().collect());
        assert_eq!(second_word(&chars), expected);
        assert_eq!(trim(&chars), text.trim().chars().collect::<Vec<char>>());
    }
    assert!(starts_with(&chars_of("MemTotal: 1"), &chars_of("MemTotal:")));
    assert!(!starts_with(&chars_of("MemT"), &chars_of("MemTotal:")));
    assert!(starts_with(&chars_of("x"), &chars_of("")));
}

#[test]
fn meminfo_amounts_are_found() {
    assert_eq!(read_meminfo_mb(MEMINFO, "MemTotal:"), 96000);
    assert_eq!(read_meminfo_mb(MEMINFO, "MemAvailable:"), 64000);
    assert_eq!(read_meminfo_mb(MEMINFO, "MemFree:"), 0);
    assert_eq!(read_meminfo_mb(MEMINFO, "SwapTotal:"), 0);
    assert_eq!(read_meminfo_mb("", "MemTotal:"), 0);
}

#[test]
fn meminfo_takes_the_first_matching_line() {
    assert_eq!(read_meminfo_mb("Mem: 1024\nMem: 2048\n", "Mem:"), 1);
    assert_eq!(read_meminfo_mb("Mem: none\nMem: 2048\n", "Mem:"), 0);
    assert_eq!(read_meminfo_mb("Mem:\nMem: 2048\n", "Mem:"), 0);
    assert_eq!(read_meminfo_mb(" Mem: 1\nMem: 4096", "Mem:"), 4);
    assert_eq!(read_meminfo_mb("a\nMem:\t5120\r\n", "Mem:"), 5);
    assert_eq!(read_meminfo_mb("x 2048\ny 4096", ""), 2);
    assert_eq!(read_meminfo_mb("\n\nx 3072", "x"), 3);
    assert_eq!(read_meminfo_mb("x\r\nx 9216", "x\r"), 0);
    assert_eq!(read_meminfo_mb("x\r 9216", "x\r"), 9);
}

#[test]
fn usable_memory_leaves_the_buffer_and_keeps_the_limit() {
    assert_eq!(usable_mb(64000, None), 59904);
    assert_eq!(usable_mb(64000, Some(8192)), 8192);
    assert_eq!(usable_mb(64000, Some(8193)), 8192);
    assert_eq!(usable_mb(64000, Some(100000)), 59904);
    assert_eq!(usable_mb(4096 + 65, None), 64);
    assert_eq!(usable_mb(4096, None), 0);
    assert_eq!(usable_mb(10, Some(5)), 0);
    assert_eq!(usable_mb(64000, Some(0)), 0);
}

#[test]
fn plans_are_whole_pages_and_not_too_small() {
    assert!(AllocationPlan::new(62).is_none());
    assert!(AllocationPlan::new(0).is_none());
    let plan = AllocationPlan::new(64).unwrap();
    assert_eq!((plan.safe_mb, plan.num_pages, plan.alloc_size), (64, 32, 67108864));
    let plan = AllocationPlan::new(usable_mb(64000, Some(8192))).unwrap();
    assert_eq!((plan.safe_mb, plan.num_pages), (8192, 4096));
    assert_eq!(plan.alloc_size, 4096 * HUGE_PAGE_SIZE);
}

#[test]
fn regions_follow_one_another() {
    assert_eq!(
        region_vaddrs(0x4000_0000, 3),
        vec![0x4000_0000, 0x4020_0000, 0x4040_0000]
    );
    assert!(region_vaddrs(usize::MAX, 0).is_empty());
    assert_eq!(region_vaddrs(usize::MAX, 1), vec![usize::MAX]);
}

#[test]
fn physical_range_spans_all_addresses() {
    assert_eq!(physical_range(&[5]), (5, 5));
    assert_eq!(physical_range(&[5, 2, 9, 2]), (2, 9));
    assert_eq!(physical_range(&[1, 2, 3]), (1, 3));
}

#[test]
fn progress_is_due_every_so_often() {
    assert_eq!(progress(0, 1), Some(0));
    assert_eq!(progress(63, 1000), None);
    assert_eq!(progress(64, 1000), Some(6));
    assert_eq!(progress(960, 1000), Some(96));
    assert_eq!(progress(1, 2), None);
}

#[test]
fn page_counts_parse() {
    assert_eq!(parse_page_count("512\n"), 512);
    assert_eq!(parse_page_count("  7 "), 7);
    assert_eq!(parse_page_count(""), 0);
    assert_eq!(parse_page_count("none\n"), 0);
    assert_eq!(parse_page_count("1 2"), 0);
}

#[test]
fn reservation_runs_its_course() {
    let mut reservation = Reservation::begin(100);
    assert!(matches!(reservation.action(), Action::Write(text) if text == "0"));
    reservation.advance("");
    assert!(matches!(reservation.action(), Action::Pause(500)));
    reservation.advance("");
    assert!(matches!(reservation.action(), Action::Read));
    reservation.advance("0\n");
    assert!(matches!(reservation.action(), Action::Write(text) if text == "100"));
    reservation.advance("");
    assert!(matches!(reservation.action(), Action::Read));
    reservation.advance("100\n");
    assert!(matches!(reservation.action(), Action::Finish));
    reservation.advance("0\n");
    assert_eq!(reservation.stage, Stage::Reserved);
}

#[test]
fn reservation_warns_of_a_shortfall() {
    let mut reservation = Reservation::begin(100);
    for content in ["", "", "12", "", "60\n"] {
        reservation.advance(content);
    }
    assert_eq!(reservation.stage, Stage::Short(60));
    assert!(matches!(reservation.action(), Action::Warn { requested: 100, granted: 60 }));
    reservation.advance("100");
    assert_eq!(reservation.stage, Stage::Short(60));
    let mut unreadable = Reservation::begin(1);
    for _ in 0..5 {
        unreadable.advance("");
    }
    assert_eq!(unreadable.stage, Stage::Short(0));
}

#[test]
fn reservation_requests_nothing_where_enough_is_there() {
    let mut reservation = Reservation::begin(100);
    reservation.advance("");
    reservation.advance("");
    reservation.advance("100\n");
    assert_eq!(reservation.stage, Stage::Reserved);
    let mut none = Reservation::begin(0);
    for _ in 0..3 {
        none.advance("");
    }
    assert_eq!(none.stage, Stage::Reserved);
}

#[test]
fn granted_request_is_recognised() {
    for count in [1usize, 10, 4096, 30976] {
        let content = format!("{}\n", render_number(count));
        assert_eq!(parse_page_count(&content), count);
    }
}

#[test]
fn meminfo_agrees_with_lines_and_words() {
    let texts = [
        "", "\n", "\r\n", "k 1024", "k 1024\n", "\nk 2048\n", "k\r\nk 2048", "k\r\r\nk 4096\r\n",
        "k\r2048 4096", "a\n\n\nk\u{2028}1024 x\n", "kk 1024\nk 2048", "k +3072 kB\r\n", "k -1\n",
        "k 18446744073709551615\n", "k 18446744073709551616\n", "\u{3000}k 1024\nk 5120\u{a0}",
    ];
    for text in texts {
        for key in ["", "k", "k ", "kk", "k\r", "\r", "\n", "k\n", "a"] {
            let line = text.lines().find(|line| line.starts_with(key));
            let kb: usize = line
                .and_then(|line| line.split_whitespace().nth(1))
                .and_then(|word| word.parse().ok())
                .unwrap_or(0);
            assert_eq!(read_meminfo_mb(text, key), kb / 1024);
        }
    }
}
