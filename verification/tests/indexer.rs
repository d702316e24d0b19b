use std::collections::{BTreeMap, BTreeSet};

use tunecall::indexer::corrections::{self, Corrections};
use tunecall::indexer::index::{self, SidecarError};
use tunecall::indexer::repair::repair_monotonic;
use tunecall::indexer::resolve::{resolvable_page, resolve_page, resolve_rows, Index};
use tunecall::indexer::toc::{
    clean_title, clean_title_with, is_continuation_header, is_header_line_upper, looks_like_header, parse_page, parse_toc, recover_page_digits,
};

// --- corrections sidecar ---------------------------------------------------

#[test]
fn corrections_parses_pages_and_skips_comments_and_blanks() {
    let m = corrections::parse("# a comment\n\n295 Cyclone\n296\tT.J.R.C.\n").unwrap();
    assert_eq!(m.get(&295).map(String::as_str), Some("Cyclone"));
    assert_eq!(m.get(&296).map(String::as_str), Some("T.J.R.C."));
    assert_eq!(m.len(), 2);
}

#[test]
fn corrections_keeps_spaces_in_titles_and_trims() {
    let m = corrections::parse("  298 \t  Tea For Two  \n").unwrap();
    assert_eq!(m.get(&298).map(String::as_str), Some("Tea For Two"));
}

#[test]
fn corrections_errors_on_bad_page_or_missing_title() {
    assert!(corrections::parse("notapage Title").is_err());
    assert!(corrections::parse("296").is_err()); // no title
}

#[test]
fn warns_for_added_and_out_of_range_but_not_overrides() {
    let mut c = Corrections::new();
    c.insert(100, "Override Me".into()); // matches an OCR page -> quiet
    c.insert(200, "Added Tune".into()); // no OCR entry, in range -> "added"
    c.insert(9000, "Typo Page".into()); // no OCR entry, out of range
    let ocr: BTreeSet<i32> = [100, 150].into_iter().collect();
    let w = corrections::warnings(&c, &ocr, 0, 500); // offset 0 -> scan = printed - 1
    assert_eq!(w.len(), 2); // the override is not warned about
    assert!(
        w[0].contains("p.200") && w[0].contains("added as a new row"),
        "{:?}",
        w[0]
    );
    assert!(
        w[1].contains("p.9000") && w[1].contains("outside"),
        "{:?}",
        w[1]
    );
}

#[test]
fn corrections_warning_texts_are_exact() {
    let mut c = Corrections::new();
    c.insert(200, "Added Tune".into());
    c.insert(9000, "Typo Page".into());
    let w = corrections::warnings(&c, &BTreeSet::new(), 0, 500);
    assert_eq!(
        w,
        vec![
            "correction for p.200 (\"Added Tune\") matched no OCR'd entry \u{2014} added as a new row (typo in the page number?)"
                .to_string(),
            "correction for p.9000 (\"Typo Page\") maps to scan page 9000 \u{2014} outside the PDF's 1..=500; clamped (check the page number or --offset)"
                .to_string(),
        ]
    );
}

#[test]
fn corrections_offset_moves_the_range() {
    let mut c = Corrections::new();
    c.insert(1, "First".into());
    // offset -5: printed 1 lands on scan -5, outside
    let w = corrections::warnings(&c, &BTreeSet::new(), -5, 10);
    assert_eq!(w.len(), 1);
    assert!(w[0].contains("scan page -4") && w[0].contains("outside"), "{:?}", w[0]);
}

#[test]
fn corrections_later_line_for_a_page_wins() {
    let m = corrections::parse("5 First\n5 Second\n").unwrap();
    assert_eq!(m.len(), 1);
    assert_eq!(m.get(&5).map(String::as_str), Some("Second"));
}

// --- index sidecar ----------------------------------------------------------

#[test]
fn index_parses_pages_and_skips_comments_and_blanks() {
    let m = index::parse("# a comment\n\n295 Sy Clone\n296\tT.J.R.C.\n").unwrap();
    assert_eq!(
        m.get(&295).map(Vec::as_slice),
        Some(&["Sy Clone".to_string()][..])
    );
    assert_eq!(
        m.get(&296).map(Vec::as_slice),
        Some(&["T.J.R.C.".to_string()][..])
    );
    assert_eq!(m.len(), 2);
}

#[test]
fn index_keeps_spaces_in_titles_and_trims() {
    let m = index::parse("  298 \t  Tea For Two  \n").unwrap();
    assert_eq!(
        m.get(&298).map(Vec::as_slice),
        Some(&["Tea For Two".to_string()][..])
    );
}

#[test]
fn keeps_multiple_titles_on_one_page() {
    // Some books print two short charts on a single page.
    let m = index::parse("38 Batterie\n38 Ictus\n").unwrap();
    assert_eq!(
        m.get(&38).map(Vec::as_slice),
        Some(&["Batterie".to_string(), "Ictus".to_string()][..])
    );
    assert_eq!(m.len(), 1);
}

#[test]
fn index_errors_on_bad_page_or_missing_title() {
    assert!(index::parse("notapage Title").is_err());
    assert!(index::parse("296").is_err()); // no title
}

#[test]
fn index_errors_name_the_line_and_the_problem() {
    match index::parse("1 Fine\n\nnotapage Title\n") {
        Err(SidecarError::BadPage { line, token }) => {
            assert_eq!(line, 3);
            assert_eq!(token, "notapage");
        }
        other => panic!("unexpected {:?}", other),
    }
    match index::parse("# c\n296\n") {
        Err(SidecarError::MissingTitle { line, page }) => {
            assert_eq!(line, 2);
            assert_eq!(page, 296);
        }
        other => panic!("unexpected {:?}", other),
    }
}

#[test]
fn index_accepts_signed_pages_and_empty_text() {
    let m = index::parse("-3 Intro\n+4 Next\n").unwrap();
    assert_eq!(m.get(&-3).map(Vec::as_slice), Some(&["Intro".to_string()][..]));
    assert_eq!(m.get(&4).map(Vec::as_slice), Some(&["Next".to_string()][..]));
    assert!(index::parse("").unwrap().is_empty());
}

// --- repair -----------------------------------------------------------------

fn fix(raw: &[i32]) -> Vec<i32> {
    repair_monotonic(raw, 1, 500).0
}

#[test]
fn leaves_clean_sequences_untouched() {
    let (out, n) = repair_monotonic(&[10, 11, 13, 14, 16], 1, 500);
    assert_eq!(out, vec![10, 11, 13, 14, 16]);
    assert_eq!(n, 0);
}

#[test]
fn fixes_spike_between_neighbors() {
    // 37, <garbage 358>, 39  ->  38
    assert_eq!(fix(&[37, 358, 39]), vec![37, 38, 39]);
    // out-of-range junk (0) between 10 and 12 -> 11
    assert_eq!(fix(&[10, 0, 12]), vec![10, 11, 12]);
}

#[test]
fn fixes_local_inversion() {
    // 13, 14, 13, 16 : the stray 13 becomes 15 (interpolated 14..16)
    assert_eq!(fix(&[13, 14, 13, 16]), vec![13, 14, 15, 16]);
}

#[test]
fn extrapolates_at_the_ends() {
    assert_eq!(fix(&[0, 11, 12]), vec![10, 11, 12]); // leading junk
    assert_eq!(fix(&[10, 11, 999]), vec![10, 11, 12]); // trailing junk (out of range)
}

#[test]
fn reports_change_count() {
    let (_, n) = repair_monotonic(&[37, 358, 39], 1, 500);
    assert_eq!(n, 1);
}

#[test]
fn repair_output_is_sorted_and_stable_under_repair() {
    let raw = [5, 3, 900, 8, 2, 10, 0, 12];
    let (out, _) = repair_monotonic(&raw, 1, 500);
    assert_eq!(out.len(), raw.len());
    assert!(out.windows(2).all(|w| w[0] <= w[1]), "{:?}", out);
    let (again, n) = repair_monotonic(&out, 1, 500);
    assert_eq!(again, out);
    assert_eq!(n, 0);
}

#[test]
fn repair_empty_and_all_junk() {
    assert_eq!(repair_monotonic(&[], 1, 500), (vec![], 0));
    // No anchor at all: every entry is out of range, so nothing is trusted
    // and the input comes back as it was.
    assert_eq!(repair_monotonic(&[0, 999], 1, 500), (vec![0, 999], 0));
}

#[test]
fn repair_interpolation_rounds_half_up() {
    // 10 .. 13 with two junk entries between: 11, 12.
    assert_eq!(fix(&[10, 999, 0, 13]), vec![10, 11, 12, 13]);
    // 20 .. 23 with one junk entry: 20 + 3 * 1/2 = 21.5 rounds to 22.
    assert_eq!(fix(&[20, 0, 23]), vec![20, 22, 23]);
}

// --- table of contents -----------------------------------------------------

fn lines(raw: &[&str]) -> Vec<String> {
    raw.iter().map(|s| s.to_string()).collect()
}

#[test]
fn parses_dot_leaders_and_plain() {
    let e = parse_toc(&lines(&[
        "Affirmation .......... 1",
        "All The Things You Are    4",
        "Some Tune · 12",
        "",
        "Index",
        "42",
    ]));
    assert_eq!(
        e,
        vec![
            ("Affirmation".to_string(), 1),
            ("All The Things You Are".to_string(), 4),
            ("Some Tune".to_string(), 12),
        ]
    );
}

#[test]
fn cleans_real_ocr_noise() {
    let e = parse_toc(&lines(&[
        "AFTERNOON IN PARIG............::ccceeceeeeeeeees 13",
        "ALWAYS 020... cece cece e eee eee eee ees 23",
        "ALL BLUES oo... cece eee ee nes 18",
        "MRS. AMERICA ............. cee 163",
        "THE BLUE ROOM. ...............:ccccceeeceee eee ee ees 53",
        "ISN'T IT ROMANTIGC?..................0 ccc cee e eee 221",
        "AGUA DE BEBER (WATER TO DRINK) 14",
        "9210 00 ee 16", // pure garbage row -> dropped
    ]));
    let titles: Vec<&str> = e.iter().map(|(t, _)| t.as_str()).collect();
    assert_eq!(
        titles,
        vec![
            "AFTERNOON IN PARIG",
            "ALWAYS",
            "ALL BLUES",
            "MRS. AMERICA",
            "THE BLUE ROOM",
            "ISN'T IT ROMANTIGC?",
            "AGUA DE BEBER (WATER TO DRINK)",
        ]
    );
}

#[test]
fn drops_section_continuation_headers() {
    let e = parse_toc(&lines(&[
        "Slow, Hot; Wind...... i i nc PF ; |",
        "S-Cont.",
        "““Smoke Gets In Your Eyes..... wee cccce ecnecness 329",
    ]));
    assert_eq!(e, vec![("Smoke Gets In Your Eyes".to_string(), 329)]);
}

#[test]
fn strips_leading_punctuation_junk() {
    let e = parse_toc(&lines(&[
        "~——Lennie'’s PENNIES ....... 208",
        "““Smoke Gets In Your Eyes ... 329",
        "'Round Midnight ........ 50",
    ]));
    assert_eq!(
        e,
        vec![
            ("Lennie'’s PENNIES".to_string(), 208),
            ("Smoke Gets In Your Eyes".to_string(), 329),
            ("'Round Midnight".to_string(), 50),
        ]
    );
}

#[test]
fn recovers_misread_page_and_c_run_leader() {
    let e = parse_toc(&lines(&[
        "Wall Street. cccccccccssccccececesesee 3G3",
        "Watch What HappenS...ecccccsescccesese 304",
    ]));
    assert_eq!(
        e,
        vec![
            ("Wall Street".to_string(), 363),
            ("Watch What HappenS".to_string(), 304),
        ]
    );
}

#[test]
fn parse_page_recovers_or_rejects() {
    assert_eq!(parse_page("304"), Some(304));
    assert_eq!(parse_page("3G3"), Some(363)); // G->6, letters between digits
    assert_eq!(parse_page("1O3"), Some(103)); // O->0
    assert_eq!(parse_page("S0"), Some(50)); // leading S->5 (not grabbed as 0)
    assert_eq!(parse_page("5O"), Some(50)); // trailing O->0
    assert_eq!(parse_page("p.14"), Some(14)); // unmappable prefix -> embedded digits
    assert_eq!(parse_page("Eyes"), None); // no digit to anchor on
    assert_eq!(parse_page("OZ"), None); // letters only, no digit
    assert_eq!(parse_page("3N3"), None); // 'N' is not a digit-lookalike
}

#[test]
fn joins_wrapped_titles() {
    let e = parse_toc(&lines(&[
        "YOU ARE THE SUNSHINE",
        "",
        "OF MY LIFE ................0000.ccccceee 456",
        "INDEX",
        "WAVE ......... 100",
    ]));
    assert_eq!(
        e,
        vec![
            ("YOU ARE THE SUNSHINE OF MY LIFE".to_string(), 456),
            ("WAVE".to_string(), 100),
        ]
    );
}

#[test]
fn toc_of_nothing_is_empty() {
    assert!(parse_toc(&[]).is_empty());
    assert!(parse_toc(&lines(&["", "   "])).is_empty());
}

#[test]
fn toc_helpers_on_single_values() {
    assert_eq!(recover_page_digits("3G3"), Some(363));
    assert_eq!(recover_page_digits("Eyes"), None);
    assert!(is_continuation_header("S-CONT."));
    assert!(!is_continuation_header("SMOKE"));
    assert!(looks_like_header("Index"));
    assert!(!looks_like_header("Affirmation"));
    assert_eq!(clean_title("Affirmation .........."), "Affirmation");
}

// --- resolving printed pages to scan pages ----------------------------------

fn index_of(entries: &[(i32, &[&str])]) -> Index {
    let mut m = BTreeMap::new();
    for (p, titles) in entries {
        m.insert(*p, titles.iter().map(|t| t.to_string()).collect::<Vec<_>>());
    }
    m
}

#[test]
fn resolve_page_applies_offset() {
    assert_eq!(resolve_page(1, 15), 15);
    assert_eq!(resolve_page(10, 0), 9);
    assert_eq!(resolve_page(3, -2), 0);
}

#[test]
fn resolve_rows_clamps_and_counts_out_of_range() {
    let idx = index_of(&[(1, &["A"]), (2, &["A", "B"]), (10, &["C", "D"])]);
    let (rows, out_of_range) = resolve_rows(&idx, 0, 5);
    assert_eq!(
        rows,
        vec![
            (1, "A".to_string(), 0),
            (2, "A".to_string(), 1),
            (2, "B".to_string(), 1),
            (10, "C".to_string(), 4),
            (10, "D".to_string(), 4),
        ]
    );
    assert_eq!(out_of_range, 2);
}

#[test]
fn resolve_rows_drops_exact_duplicates() {
    // Pages 7 and 8 both clamp to the last page 4; the repeated title goes.
    let idx = index_of(&[(7, &["X"]), (8, &["X", "Y"]), (9, &["Y"])]);
    let (rows, out_of_range) = resolve_rows(&idx, 0, 5);
    assert_eq!(rows, vec![(7, "X".to_string(), 4), (8, "Y".to_string(), 4)]);
    assert_eq!(out_of_range, 4);
    // No two rows share (title, scan), and every scan page is in the book.
    for (i, a) in rows.iter().enumerate() {
        assert!(a.2 >= 0 && a.2 < 5);
        for b in &rows[i + 1..] {
            assert!(!(a.1 == b.1 && a.2 == b.2));
        }
    }
}

#[test]
fn resolve_rows_with_empty_pdf_uses_page_zero() {
    let idx = index_of(&[(3, &["T"])]);
    let (rows, out_of_range) = resolve_rows(&idx, 0, 0);
    assert_eq!(rows, vec![(3, "T".to_string(), 0)]);
    assert_eq!(out_of_range, 1);
}

#[test]
fn resolvable_page_detects_overflow() {
    assert!(resolvable_page(1, 15));
    assert!(resolvable_page(i32::MIN + 1, 0));
    assert!(!resolvable_page(i32::MIN, 0));
    assert!(!resolvable_page(i32::MAX, 1));
    assert!(resolvable_page(i32::MAX, 0));
}

#[test]
fn headers_on_uppercased_text() {
    assert!(is_header_line_upper("TABLE OF CONTENTS"));
    assert!(is_header_line_upper("SONG INDEX"));
    assert!(is_header_line_upper("A CONTINUED"));
    assert!(!is_header_line_upper("Index")); // not upper-cased: no match
    assert!(!is_header_line_upper("CONTINENTAL"));
}

#[test]
fn clean_title_with_given_capitals() {
    // Only 'A' and 'B' count as capitals: "Xyz" is then leader noise.
    assert_eq!(clean_title_with("Xyz ALL BLUES oo... cece", &['A', 'B', 'L', 'U', 'E', 'S']), "ALL BLUES");
    assert_eq!(clean_title_with("Xyz ALL BLUES", &['X', 'A', 'B', 'L', 'U', 'E', 'S']), "Xyz ALL BLUES");
    assert_eq!(clean_title_with("abc def", &[]), "");
}
