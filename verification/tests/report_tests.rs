use clan_report::error::AttemptError;
use clan_report::error::ReportError;
use clan_report::fetch::FetchAction;
use clan_report::fetch::FetchEvent;
use clan_report::fetch::Fetcher;
use clan_report::outfile::file_name_at;
use clan_report::outfile::report_file_name;
use clan_report::outfile::STAMP_FORMAT;
use clan_report::rating::ClanRating;
use clan_report::rating::PageEnvelope;
use clan_report::rating::RankedResult;
use clan_report::report::append_glyph;
use clan_report::report::delta_glyph;
use clan_report::report::format_line;
use clan_report::report::render_lines;
use clan_report::report::render_report;
use clan_report::report::sort_by_rank;
use clan_report::roster::parse_roster;

fn kept(tag: &str, name: &str, rank: u32, rank_delta: i32) -> RankedResult {
    RankedResult {
        rating: ClanRating { tag: tag.to_string(), name: name.to_string(), rank, rank_delta },
        effective_rank: rank,
    }
}

fn names(results: &[RankedResult]) -> Vec<String> {
    results.iter().map(|result| result.rating.name.clone()).collect()
}

#[test]
fn glyph_of_a_rise() {
    assert_eq!(delta_glyph(3), "^ 3");
}

#[test]
fn glyph_of_a_fall() {
    assert_eq!(delta_glyph(-4), "v 4");
}

#[test]
fn glyph_of_no_change() {
    assert_eq!(delta_glyph(0), "- ");
}

#[test]
fn glyph_of_a_change_by_two_digits() {
    assert_eq!(delta_glyph(12), "^12");
    assert_eq!(delta_glyph(-99), "v99");
}

#[test]
fn glyph_of_a_change_by_more_digits() {
    assert_eq!(delta_glyph(100), "^100");
    assert_eq!(delta_glyph(-2500), "v2500");
}

#[test]
fn glyph_of_the_largest_changes() {
    assert_eq!(delta_glyph(i32::MAX), "^2147483647");
    assert_eq!(delta_glyph(i32::MIN), "v2147483648");
}

#[test]
fn append_glyph_writes_behind_what_is_there() {
    let mut out = String::from("x ");
    append_glyph(&mut out, -1);
    assert_eq!(out, "x v 1");
}

#[test]
fn line_of_a_rise() {
    assert_eq!(format_line(1, &kept("ABC", "Alpha", 5, 2)), " 1    ^ 2 Alpha: 5\n");
}

#[test]
fn line_of_a_fall() {
    assert_eq!(format_line(12, &kept("XYZ", "Xylo", 340, -27)), "12    v27 Xylo: 340\n");
}

#[test]
fn line_of_no_change() {
    assert_eq!(format_line(3, &kept("QQQ", "Other", 1, 0)), " 3    -  Other: 1\n");
}

#[test]
fn line_at_a_position_of_three_digits() {
    assert_eq!(format_line(100, &kept("ABC", "Alpha", 4294967295, 0)), "100    -  Alpha: 4294967295\n");
}

#[test]
fn line_keeps_the_name_as_it_is() {
    assert_eq!(format_line(2, &kept("T", " Ñandú: 日本 ", 0, 1)), " 2    ^ 1  Ñandú: 日本 : 0\n");
}

#[test]
fn line_shows_the_rank_that_was_kept() {
    let entry = RankedResult {
        rating: ClanRating { tag: "ABC".to_string(), name: "Alpha".to_string(), rank: 5, rank_delta: 0 },
        effective_rank: 8,
    };
    assert_eq!(format_line(1, &entry), " 1    -  Alpha: 8\n");
}

#[test]
fn sort_puts_the_lowest_rank_first() {
    let sorted = sort_by_rank(vec![kept("C", "Cee", 30, 0), kept("A", "Ay", 10, 0), kept("B", "Bee", 20, 0)]);
    assert_eq!(sorted, vec![kept("A", "Ay", 10, 0), kept("B", "Bee", 20, 0), kept("C", "Cee", 30, 0)]);
}

#[test]
fn sort_keeps_the_order_of_equal_ranks() {
    let sorted = sort_by_rank(vec![
        kept("A", "first of 7", 7, 0),
        kept("B", "first of 3", 3, 0),
        kept("C", "second of 7", 7, 0),
        kept("D", "second of 3", 3, 0),
        kept("E", "third of 7", 7, 0),
        kept("F", "only 1", 1, 0),
    ]);
    assert_eq!(
        names(&sorted),
        vec!["only 1", "first of 3", "second of 3", "first of 7", "second of 7", "third of 7"]
    );
}

#[test]
fn sort_of_nothing_is_nothing() {
    assert_eq!(sort_by_rank(Vec::new()), Vec::<RankedResult>::new());
}

#[test]
fn sort_of_one_entry_is_that_entry() {
    assert_eq!(sort_by_rank(vec![kept("A", "Ay", 10, 0)]), vec![kept("A", "Ay", 10, 0)]);
}

#[test]
fn sort_leaves_sorted_entries_as_they_are() {
    let entries = vec![kept("A", "Ay", 0, 0), kept("B", "Bee", 1, 0), kept("C", "Cee", 4294967295, 0)];
    assert_eq!(sort_by_rank(entries.clone()), entries);
}

#[test]
fn sort_turns_falling_ranks_round() {
    let mut entries = Vec::new();
    let mut rank = 40;
    while rank > 0 {
        entries.push(kept("T", "Name", rank, 0));
        rank -= 1;
    }
    let sorted = sort_by_rank(entries);
    let ranks: Vec<u32> = sorted.iter().map(|entry| entry.effective_rank).collect();
    assert_eq!(ranks, (1..=40).collect::<Vec<u32>>());
}

#[test]
fn sort_agrees_with_a_stable_sort() {
    let mut entries = Vec::new();
    let mut seed: u32 = 12345;
    let mut i = 0;
    while i < 200 {
        seed = seed.wrapping_mul(1103515245).wrapping_add(12345);
        entries.push(kept("T", &format!("n{}", i), (seed >> 16) % 17, 0));
        i += 1;
    }
    let mut expected = entries.clone();
    expected.sort_by(|a, b| a.effective_rank.cmp(&b.effective_rank));
    assert_eq!(sort_by_rank(entries), expected);
}

#[test]
fn sort_goes_by_the_rank_that_was_kept() {
    let high = RankedResult {
        rating: ClanRating { tag: "A".to_string(), name: "Ay".to_string(), rank: 1, rank_delta: 0 },
        effective_rank: 9,
    };
    let low = kept("B", "Bee", 2, 0);
    assert_eq!(names(&sort_by_rank(vec![high, low])), vec!["Bee", "Ay"]);
}

#[test]
fn lines_are_numbered_from_one() {
    let lines = render_lines(&vec![kept("B", "Bee", 20, -3), kept("A", "Ay", 10, 0)]);
    assert_eq!(lines, vec![" 1    v 3 Bee: 20\n", " 2    -  Ay: 10\n"]);
}

#[test]
fn lines_of_nothing_are_none() {
    assert_eq!(render_lines(&Vec::new()), Vec::<String>::new());
    assert_eq!(render_report(Vec::new()), Vec::<String>::new());
}

#[test]
fn report_is_in_the_order_of_the_ranks() {
    let lines = render_report(vec![
        kept("C", "Cee", 30, 11),
        kept("A", "Ay", 10, 0),
        kept("B", "Bee", 20, -3),
        kept("D", "Dee", 10, 1),
    ]);
    assert_eq!(
        lines,
        vec![" 1    -  Ay: 10\n", " 2    ^ 1 Dee: 10\n", " 3    v 3 Bee: 20\n", " 4    ^11 Cee: 30\n"]
    );
}

#[test]
fn report_position_is_not_the_rank() {
    let lines = render_report(vec![kept("A", "Ay", 500, 0), kept("B", "Bee", 70, 0)]);
    assert_eq!(lines, vec![" 1    -  Bee: 70\n", " 2    -  Ay: 500\n"]);
}

#[test]
fn one_page_from_roster_to_report() {
    let roster = parse_roster("ABC\nXYZ\n");
    assert_eq!(roster, vec!["ABC", "XYZ"]);
    let mut fetcher = Fetcher::new(roster);
    let mut requests = 0;
    while let FetchAction::Request { page } = fetcher.next_action() {
        assert_eq!(page, 1);
        requests += 1;
        fetcher.on_event(FetchEvent::Page(PageEnvelope {
            count: 0,
            records: vec![
                ClanRating { tag: "ABC".to_string(), name: "Alpha".to_string(), rank: 5, rank_delta: 2 },
                ClanRating { tag: "QQQ".to_string(), name: "Other".to_string(), rank: 1, rank_delta: 0 },
            ],
        }));
    }
    assert_eq!(requests, 1);
    assert_eq!(fetcher.next_action(), FetchAction::Finish);
    let results = fetcher.into_results().unwrap();
    let lines = render_report(results);
    assert_eq!(lines, vec![" 1    ^ 2 Alpha: 5\n"]);
}

#[test]
fn failed_sweep_gives_nothing_to_report() {
    let mut fetcher = Fetcher::new(parse_roster("ABC\nXYZ\n"));
    let mut requests = 0;
    while let FetchAction::Request { page } = fetcher.next_action() {
        assert_eq!(page, 1);
        requests += 1;
        fetcher.on_event(FetchEvent::Failed(AttemptError::ParseError));
    }
    assert_eq!(requests, 3);
    assert_eq!(fetcher.next_action(), FetchAction::Abort(ReportError::UpstreamUnavailable));
    assert_eq!(fetcher.into_results(), None);
}

#[test]
fn file_name_holds_the_time() {
    assert_eq!(report_file_name("17-05_09_11"), "Clans_17-05_09_11.txt");
}

#[test]
fn file_name_takes_any_text() {
    assert_eq!(report_file_name(""), "Clans_.txt");
    assert_eq!(report_file_name("añо"), "Clans_añо.txt");
}

#[test]
fn stamp_format_is_hour_minute_day_month() {
    assert_eq!(STAMP_FORMAT, "%H-%M_%d_%m");
}

#[test]
fn file_name_at_the_start_of_1970() {
    assert_eq!(file_name_at(0, 0), Some("Clans_00-00_01_01.txt".to_string()));
}

#[test]
fn file_name_at_a_known_instant() {
    assert_eq!(file_name_at(1700000000, 0), Some("Clans_22-13_14_11.txt".to_string()));
}

#[test]
fn file_name_at_goes_by_the_zone() {
    assert_eq!(file_name_at(1700000000, 3600), Some("Clans_23-13_14_11.txt".to_string()));
    assert_eq!(file_name_at(1700000000, 2 * 3600), Some("Clans_00-13_15_11.txt".to_string()));
    assert_eq!(file_name_at(1700000000, -5 * 3600 - 30 * 60), Some("Clans_16-43_14_11.txt".to_string()));
}

#[test]
fn file_name_at_a_zone_behind_crosses_the_year() {
    assert_eq!(file_name_at(0, -3600), Some("Clans_23-00_31_12.txt".to_string()));
}

#[test]
fn file_name_at_the_last_of_february() {
    assert_eq!(file_name_at(1709251199, 0), Some("Clans_23-59_29_02.txt".to_string()));
    assert_eq!(file_name_at(1709251200, 0), Some("Clans_00-00_01_03.txt".to_string()));
}

#[test]
fn file_name_at_drops_the_seconds() {
    assert_eq!(file_name_at(59, 0), Some("Clans_00-00_01_01.txt".to_string()));
    assert_eq!(file_name_at(60, 0), Some("Clans_00-01_01_01.txt".to_string()));
}

#[test]
fn file_name_at_before_1970() {
    assert_eq!(file_name_at(-1, 0), Some("Clans_23-59_31_12.txt".to_string()));
}

#[test]
fn file_name_at_widest_zones() {
    assert_eq!(file_name_at(0, 86399), Some("Clans_23-59_01_01.txt".to_string()));
    assert_eq!(file_name_at(0, -86399), Some("Clans_00-00_31_12.txt".to_string()));
}

#[test]
fn file_name_at_no_such_zone() {
    assert_eq!(file_name_at(0, 86400), None);
    assert_eq!(file_name_at(0, -86400), None);
    assert_eq!(file_name_at(1700000000, i32::MAX), None);
    assert_eq!(file_name_at(1700000000, i32::MIN), None);
}

#[test]
fn file_name_at_no_such_instant() {
    assert_eq!(file_name_at(i64::MAX, 0), None);
    assert_eq!(file_name_at(i64::MIN, 0), None);
}

#[test]
fn file_name_at_the_ends_of_the_count_of_years() {
    let last = 8210266876799;
    assert_eq!(file_name_at(last, 0), Some("Clans_23-59_31_12.txt".to_string()));
    assert_eq!(file_name_at(last, 86399), Some("Clans_23-59_01_01.txt".to_string()));
    assert_eq!(file_name_at(last + 1, 0), None);
    let first = -8334601228800;
    assert_eq!(file_name_at(first, 0), Some("Clans_00-00_01_01.txt".to_string()));
    assert_eq!(file_name_at(first, -86399), Some("Clans_00-00_31_12.txt".to_string()));
    assert_eq!(file_name_at(first - 1, 0), None);
}

#[test]
fn file_name_at_always_has_the_shape() {
    let mut seconds: i64 = -40000000000;
    while seconds < 40000000000 {
        let mut offset: i32 = -86399;
        while offset < 86400 {
            let name = file_name_at(seconds, offset).unwrap();
            let chars: Vec<char> = name.chars().collect();
            assert_eq!(chars.len(), 21);
            assert!(name.starts_with("Clans_"));
            assert!(name.ends_with(".txt"));
            let stamp = &chars[6..17];
            assert_eq!(stamp[2], '-');
            assert_eq!(stamp[5], '_');
            assert_eq!(stamp[8], '_');
            let field = |at: usize| -> u32 {
                assert!(stamp[at].is_ascii_digit());
                assert!(stamp[at + 1].is_ascii_digit());
                stamp[at].to_digit(10).unwrap() * 10 + stamp[at + 1].to_digit(10).unwrap()
            };
            assert!(field(0) <= 23);
            assert!(field(3) <= 59);
            assert!(1 <= field(6) && field(6) <= 31);
            assert!(1 <= field(9) && field(9) <= 12);
            offset += 28799;
        }
        seconds += 777777777;
    }
}

#[test]
fn messages_name_the_stage() {
    assert!(ReportError::ResourceUnavailable.message().starts_with("roster load failed"));
    assert!(ReportError::UpstreamUnavailable.message().starts_with("page fetch failed"));
    assert!(ReportError::OutputUnavailable.message().starts_with("output creation failed"));
}

#[test]
fn messages_differ() {
    assert_ne!(ReportError::ResourceUnavailable.message(), ReportError::UpstreamUnavailable.message());
    assert_ne!(ReportError::UpstreamUnavailable.message(), ReportError::OutputUnavailable.message());
    assert_ne!(ReportError::ResourceUnavailable.message(), ReportError::OutputUnavailable.message());
}
