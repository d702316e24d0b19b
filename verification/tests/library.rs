use tunecall::annotations::AnnotationKind;
use tunecall::config::{default_first_page, BookConfig, BooksConfig};
use tunecall::db::{book_files, library_sources, list_books, load_library, resolve_pdf, search, search_lowered, Song};
use tunecall::index::parse_master_index;
use tunecall::path::has_ext;
use tunecall::setlist::{
    add_song_to_editing, create_setlist, delete_setlist, loaded_or_empty, move_down, move_song_down_in_editing,
    move_song_up_in_editing, move_up, remove_song_from_editing, rename_setlist, setlist_songs, Setlist, SetlistSong,
};
use tunecall::settings::{loaded_or_default, Settings};
use tunecall::storage::{
    default_data_dir, download_dir, join, pdf_dir, resolve_data_dir, set_data_dir, setlists_path, settings_path,
};
use tunecall::viewer::{
    book_label, book_label_by_key, book_stem_from_path, book_subtitle, book_titles, idle_status, next_result, prev_result,
    results_status, search_query, start_tab, open_at, ViewerState, RENDER_WIDTH, TAB_BOOKS, TAB_SEARCH,
};

fn strings(raw: &[&str]) -> Vec<String> {
    raw.iter().map(|s| s.to_string()).collect()
}

// --- master index -----------------------------------------------------------

fn codes() -> Vec<String> {
    strings(&["NewReal1", "Realbk1", "RealBk2", "JazzFake"])
}

#[test]
fn parses_basic_entries() {
    let e = parse_master_index(
        &strings(&["Song Title Book Page", "Affirmation NewReal1 1", "Master Index"]),
        &codes(),
    );
    assert_eq!(e.len(), 1);
    assert_eq!(e[0].title, "Affirmation");
    assert_eq!(e[0].code, "NewReal1");
    assert_eq!(e[0].page, "1");
}

#[test]
fn multiword_titles_and_appendix_pages() {
    let e = parse_master_index(
        &strings(&["All The Things You Are NewReal1 4", "Alfie Realbk1 A1"]),
        &codes(),
    );
    assert_eq!(e[0].title, "All The Things You Are");
    assert_eq!(e[0].page, "4");
    assert_eq!(e[1].title, "Alfie");
    assert_eq!(e[1].page, "A1");
}

#[test]
fn recovers_missing_space_before_code() {
    let e = parse_master_index(
        &strings(&["Sweet Of LifeRealbk1 14", "Long Road)NewReal1 9"]),
        &codes(),
    );
    assert_eq!(e[0].code, "Realbk1");
    assert_eq!(e[0].title, "Sweet Of Life");
    assert_eq!(e[1].code, "NewReal1");
    assert_eq!(e[1].title, "Long Road)");
}

#[test]
fn skips_unknown_codes() {
    let e = parse_master_index(&strings(&["Mystery Tune Commercial 5"]), &codes());
    assert!(e.is_empty());
}

#[test]
fn master_index_code_matches_ignoring_case_and_keeps_canonical_casing() {
    let e = parse_master_index(&strings(&["Blue Bossa realbk2 30"]), &codes());
    assert_eq!(e.len(), 1);
    assert_eq!(e[0].code, "RealBk2");
    assert_eq!(e[0].title, "Blue Bossa");
    assert_eq!(e[0].page, "30");
}

// --- the library ------------------------------------------------------------

/// The rows each index file holds, as reading it would give them.
fn index_rows(db: &str) -> Option<Vec<(String, i32)>> {
    let rows: &[(&str, i32)] = match db {
        "/p/Book One.db" => &[("All Blues", 30)],
        "/d/Book One.db" => &[("All Blues", 999)],
        "/d/Book Two.db" => &[("So What", 5)],
        "/d/Ghost.db" => &[("Nope", 1)],
        _ => return None,
    };
    Some(rows.iter().map(|(t, p)| (t.to_string(), *p)).collect())
}

#[test]
fn prefers_local_db_then_downloaded() {
    // Book One: local .db (page 30) AND a downloaded .db (page 999) -> local wins.
    // Book Two: PDF in pdfs, index only downloaded -> used.
    // A downloaded .db with no PDF (Ghost) is ignored.
    let pdfs = strings(&["/p/Book One.PDF", "/p/Book Two.PDF"]);
    let local = strings(&["/p/Book One.db"]);
    let downloaded = strings(&["/d/Book One.db", "/d/Book Two.db", "/d/Ghost.db"]);
    let sources = library_sources(&pdfs, &local, &downloaded);
    let tables: Vec<Option<Vec<(String, i32)>>> = sources.iter().map(|s| index_rows(&s.db)).collect();
    let songs = load_library(&sources, &tables);
    assert_eq!(songs.len(), 2);

    let blues = search(&songs, "all blues", 10);
    assert_eq!(blues.len(), 1);
    assert_eq!(blues[0].page, 30); // local wins, not the downloaded 999
    assert_eq!(blues[0].book, "Book One");

    let so_what = search(&songs, "so what", 10);
    assert_eq!(so_what.len(), 1);
    assert_eq!(so_what[0].page, 5);
    assert!(so_what[0].file.ends_with("Book Two.PDF"));
}

#[test]
fn library_sources_and_unreadable_indexes() {
    let pdfs = strings(&["/p/Book One.PDF", "/p/Book Two.PDF", "/p/Ghost.pdf"]);
    let local = strings(&["/p/Book One.db"]);
    let downloaded = strings(&["/d/Book One.db", "/d/Book Two.db"]);
    let sources = library_sources(&pdfs, &local, &downloaded);
    assert_eq!(sources.len(), 2); // Ghost has no index
    assert_eq!(sources[0].db, "/p/Book One.db");
    assert_eq!(sources[0].stem, "Book One");
    assert_eq!(sources[1].db, "/d/Book Two.db");

    // A book whose index cannot be read is skipped.
    let songs = load_library(&sources, &[None, Some(vec![("So What".to_string(), 30)])]);
    assert_eq!(songs.len(), 1);
    assert_eq!(songs[0].title, "So What");
    assert_eq!(songs[0].file, "/p/Book Two.PDF");
}

#[test]
fn lists_books_with_pdf_availability() {
    // Installed: PDF + local index. Missing: downloaded index, no PDF yet.
    // Dup: same stem in both index folders -> one entry only.
    let pdfs = strings(&["/p/Installed.PDF"]);
    let local = strings(&["/p/Installed.db", "/p/Dup.db"]);
    let downloaded = strings(&["/d/Missing.db", "/d/Dup.db"]);
    let files = book_files(&local, &downloaded);
    let titles: Vec<Option<String>> = files.iter().map(|_| None).collect();
    let books = list_books(&files, &titles, &pdfs);
    assert_eq!(books.len(), 3); // Dup, Installed, Missing (sorted)
    assert_eq!(books[0].name, "Dup");
    assert!(!books[0].has_pdf);
    assert_eq!(books[1].name, "Installed");
    assert!(books[1].has_pdf);
    assert_eq!(books[2].name, "Missing");
    assert!(!books[2].has_pdf);
}

#[test]
fn reads_book_title_from_meta_when_present() {
    // Titled: its index has a title; Untitled: an older index without one.
    let pdfs = strings(&["/p/Titled.PDF"]);
    let files = book_files(&strings(&["/p/Titled.db"]), &strings(&["/d/Untitled.db"]));
    let titles: Vec<Option<String>> = files
        .iter()
        .map(|f| if f.db == "/p/Titled.db" { Some("The Real Book, Vol. 1".to_string()) } else { None })
        .collect();
    let books = list_books(&files, &titles, &pdfs);
    assert_eq!(books.len(), 2); // Titled, Untitled (sorted)
    assert_eq!(books[0].name, "Titled");
    assert_eq!(books[0].title.as_deref(), Some("The Real Book, Vol. 1"));
    assert_eq!(books[1].name, "Untitled");
    assert_eq!(books[1].title, None);
}

#[test]
fn book_files_sorted_first_of_each_stem_wins() {
    let local = strings(&["/p/Installed.db", "/p/Missing.db", "/p/Dup.db"]);
    let downloaded = strings(&["/d/dup.db", "/d/Extra.db"]);
    let files = book_files(&local, &downloaded);
    let names: Vec<&str> = files.iter().map(|f| f.name.as_str()).collect();
    // Sorted by lower-cased stem; the local Dup wins over the downloaded dup.
    assert_eq!(names, vec!["Dup", "Extra", "Installed", "Missing"]);
    assert_eq!(files[0].db, "/p/Dup.db");
}

#[test]
fn resolve_pdf_matches_stem_case_insensitively() {
    let pdfs = strings(&["/p/RealBk1h.PDF"]);
    assert_eq!(resolve_pdf(&pdfs, "realbk1h").as_deref(), Some("/p/RealBk1h.PDF"));
    assert_eq!(resolve_pdf(&pdfs, "REALBK1H").as_deref(), Some("/p/RealBk1h.PDF"));
    assert_eq!(resolve_pdf(&pdfs, "missing"), None);
}

#[test]
fn has_ext_ignores_case() {
    assert!(has_ext("/p/Book.PDF", "pdf"));
    assert!(has_ext("/p/book.db", "db"));
    assert!(!has_ext("/p/book.db", "pdf"));
    assert!(!has_ext("/p/.pdf", "pdf"));
}

fn song(title: &str, book: &str) -> Song {
    Song { title: title.to_string(), book: book.to_string(), file: String::new(), page: 0 }
}

#[test]
fn search_is_case_insensitive_sorted_and_limited() {
    let songs = vec![
        song("So What", "B"),
        song("all blues", "A"),
        song("All Blues", "A0"),
        song("Blue Bossa", "C"),
        song("Giant Steps", "D"),
    ];
    let hits = search(&songs, "  BLUE ", 10);
    let got: Vec<(&str, &str)> = hits.iter().map(|s| (s.title.as_str(), s.book.as_str())).collect();
    assert_eq!(got, vec![("all blues", "A"), ("All Blues", "A0"), ("Blue Bossa", "C")]);
    assert_eq!(search(&songs, "blue", 2).len(), 2);
    assert!(search(&songs, "xyz", 10).is_empty());
    assert_eq!(search(&songs, "", 10).len(), 5);
}

// --- book configuration -----------------------------------------------------

fn book(file: &str, first_page: i32) -> BookConfig {
    BookConfig { file: file.to_string(), first_page }
}

#[test]
fn config_codes_are_sorted_and_lookup_ignores_case() {
    let cfg = BooksConfig::from_entries(vec![
        ("Realbk1".to_string(), book("REALBK1.PDF", 1)),
        ("NewReal1".to_string(), book("NEWREAL1.PDF", 16)),
        ("JazzFake".to_string(), book("Jazz Fake Book.PDF", default_first_page())),
    ]);
    assert_eq!(cfg.codes(), strings(&["JazzFake", "NewReal1", "Realbk1"]));
    let b = cfg.get("newreal1").unwrap();
    assert_eq!(b.file, "NEWREAL1.PDF");
    assert_eq!(b.first_page, 16);
    assert_eq!(cfg.get("JAZZFAKE").unwrap().first_page, 1);
    assert!(cfg.get("Commercial").is_none());
}

#[test]
fn config_later_entry_for_a_code_wins() {
    let mut cfg = BooksConfig::default();
    assert!(cfg.codes().is_empty());
    cfg.insert("B".to_string(), book("b.pdf", 1));
    cfg.insert("A".to_string(), book("a.pdf", 2));
    cfg.insert("B".to_string(), book("b2.pdf", 3));
    assert_eq!(cfg.codes(), strings(&["A", "B"]));
    assert_eq!(cfg.get("b").unwrap().file, "b2.pdf");
}

#[test]
fn default_first_page_is_one() {
    assert_eq!(default_first_page(), 1);
}

// --- setlists ----------------------------------------------------------------

fn setlist_song(title: &str) -> SetlistSong {
    SetlistSong { title: title.into(), book: "realbk1h".into(), page: 1 }
}

fn titles(s: &[SetlistSong]) -> Vec<&str> {
    s.iter().map(|x| x.title.as_str()).collect()
}

#[test]
fn reorder_edges_are_noops() {
    let mut s = vec![setlist_song("a"), setlist_song("b"), setlist_song("c")];
    move_up(&mut s, 0); // first up: no-op
    assert_eq!(s.iter().map(|x| x.title.as_str()).collect::<Vec<_>>(), ["a", "b", "c"]);
    move_down(&mut s, 2); // last down: no-op
    assert_eq!(s.iter().map(|x| x.title.as_str()).collect::<Vec<_>>(), ["a", "b", "c"]);
    move_down(&mut s, 0); // a <-> b
    assert_eq!(s.iter().map(|x| x.title.as_str()).collect::<Vec<_>>(), ["b", "a", "c"]);
    move_up(&mut s, 2); // a <-> c
    assert_eq!(s.iter().map(|x| x.title.as_str()).collect::<Vec<_>>(), ["b", "c", "a"]);
}

#[test]
fn reorder_out_of_range_is_safe() {
    let mut s = vec![setlist_song("only")];
    move_up(&mut s, 5);
    move_down(&mut s, 5);
    assert_eq!(s.len(), 1);
}

#[test]
fn move_up_then_down_restores_order() {
    let mut s = vec![setlist_song("a"), setlist_song("b"), setlist_song("c"), setlist_song("d")];
    move_up(&mut s, 2);
    assert_eq!(titles(&s), ["a", "c", "b", "d"]);
    move_down(&mut s, 1);
    assert_eq!(titles(&s), ["a", "b", "c", "d"]);
}

fn sample_song(title: &str, book: &str, page: i32) -> Song {
    Song { title: title.to_string(), book: book.to_string(), file: format!("/p/{book}.pdf"), page }
}

#[test]
fn setlist_editor_edits() {
    let mut lists: Vec<Setlist> = Vec::new();
    create_setlist(&mut lists, "   ");
    assert!(lists.is_empty());
    create_setlist(&mut lists, "  Gig  ");
    create_setlist(&mut lists, "Practice");
    assert_eq!(lists.len(), 2);
    assert_eq!(lists[0].name, "Gig");
    assert!(lists[0].songs.is_empty());

    rename_setlist(&mut lists, 1, " Jam ");
    assert_eq!(lists[1].name, "Jam");
    rename_setlist(&mut lists, 1, "  ");
    assert_eq!(lists[1].name, "Jam");
    rename_setlist(&mut lists, 7, "X");
    assert_eq!(lists.len(), 2);

    add_song_to_editing(&mut lists, Some(0), &sample_song("All Blues", "realbk1h", 12));
    add_song_to_editing(&mut lists, Some(0), &sample_song("So What", "realbk1h", 40));
    add_song_to_editing(&mut lists, Some(0), &sample_song("Nardis", "evans", 3));
    add_song_to_editing(&mut lists, None, &sample_song("Ignored", "x", 1));
    add_song_to_editing(&mut lists, Some(9), &sample_song("Ignored", "x", 1));
    assert_eq!(titles(&lists[0].songs), ["All Blues", "So What", "Nardis"]);
    assert_eq!(lists[0].songs[0].book, "realbk1h");
    assert_eq!(lists[0].songs[0].page, 12);
    assert!(lists[1].songs.is_empty());

    move_song_up_in_editing(&mut lists, Some(0), 2);
    assert_eq!(titles(&lists[0].songs), ["All Blues", "Nardis", "So What"]);
    move_song_down_in_editing(&mut lists, Some(0), 0);
    assert_eq!(titles(&lists[0].songs), ["Nardis", "All Blues", "So What"]);
    remove_song_from_editing(&mut lists, Some(0), 1);
    assert_eq!(titles(&lists[0].songs), ["Nardis", "So What"]);
    remove_song_from_editing(&mut lists, Some(0), 5);
    assert_eq!(lists[0].songs.len(), 2);

    delete_setlist(&mut lists, 5);
    assert_eq!(lists.len(), 2);
    delete_setlist(&mut lists, 0);
    assert_eq!(lists.len(), 1);
    assert_eq!(lists[0].name, "Jam");
}

#[test]
fn setlist_songs_resolve_their_pdfs() {
    let list = Setlist {
        name: "Gig".into(),
        songs: vec![
            SetlistSong { title: "All Blues".into(), book: "realbk1h".into(), page: 12 },
            SetlistSong { title: "Gone".into(), book: "notinstalled".into(), page: 3 },
        ],
    };
    let songs = setlist_songs(&list, &strings(&["/p/RealBk1h.PDF"]));
    assert_eq!(songs.len(), 2);
    assert_eq!(songs[0].file, "/p/RealBk1h.PDF");
    assert_eq!(songs[0].page, 12);
    assert_eq!(songs[1].file, "");
    assert_eq!(songs[1].title, "Gone");
}

#[test]
fn missing_setlists_file_reads_as_none() {
    assert!(loaded_or_empty(None).is_empty());
    let lists = vec![Setlist { name: "Gig".into(), songs: vec![] }];
    assert_eq!(loaded_or_empty(Some(lists)).len(), 1);
}

// --- settings and annotations -------------------------------------------------

#[test]
fn missing_or_corrupt_settings_are_default() {
    assert_eq!(loaded_or_default(None), Settings::default());
    assert!(!Settings::default().file_logging);
    let on = Settings { file_logging: true };
    assert_eq!(loaded_or_default(Some(on)), on);
}

#[test]
fn annotation_kind_from_db() {
    assert!(AnnotationKind::from_db("rect") == AnnotationKind::Rect);
    assert!(AnnotationKind::from_db("text") == AnnotationKind::Text);
    assert!(AnnotationKind::from_db("RECT") == AnnotationKind::Text);
    assert!(AnnotationKind::from_db("") == AnnotationKind::Text);
}

// --- storage -----------------------------------------------------------------

#[test]
fn paths_join_like_pathbuf() {
    assert_eq!(join("/data/tunecall", "pdfs"), "/data/tunecall/pdfs");
    assert_eq!(join("/data/tunecall/", "pdfs"), "/data/tunecall/pdfs");
    assert_eq!(join("", "pdfs"), "pdfs");
    assert_eq!(join("/data", "/abs"), "/abs");
    assert_eq!(default_data_dir(Some("/home/u/.local/share".to_string())), "/home/u/.local/share/tunecall");
    assert_eq!(default_data_dir(None), "./tunecall");
}

#[test]
fn data_dir_is_resolved_once() {
    let mut slot: Option<String> = None;
    let d = resolve_data_dir(&mut slot, Some("/xdg".to_string()));
    assert_eq!(d, "/xdg/tunecall");
    // Later overrides and later platform answers change nothing.
    set_data_dir(&mut slot, "/other".to_string());
    assert_eq!(resolve_data_dir(&mut slot, None), "/xdg/tunecall");
    assert_eq!(pdf_dir(&mut slot), "/xdg/tunecall/pdfs");
    assert_eq!(download_dir(&mut slot), "/xdg/tunecall/downloaded");
    assert_eq!(setlists_path(&mut slot), "/xdg/tunecall/setlists.json");
    assert_eq!(settings_path(&mut slot), "/xdg/tunecall/settings.json");
}

#[test]
fn set_data_dir_before_first_read_wins() {
    let mut slot: Option<String> = None;
    set_data_dir(&mut slot, "/android/files".to_string());
    assert_eq!(resolve_data_dir(&mut slot, Some("/xdg".to_string())), "/android/files");
    assert_eq!(tunecall::config::config_path(&mut slot), "/android/files/books.toml");
}

// --- the main window -----------------------------------------------------------

#[test]
fn book_names_and_subtitles() {
    assert_eq!(book_stem_from_path("/p/RealBk1h.PDF"), "RealBk1h");
    assert_eq!(book_stem_from_path(""), "");
    let files = book_files(&strings(&["/p/557standrd.db", "/p/Plain.db"]), &[]);
    let books = list_books(&files, &[Some("557 Standards".to_string()), None], &[]);
    let t = book_titles(&books);
    assert_eq!(t, vec![("557standrd".to_string(), "557 Standards".to_string())]);
    assert_eq!(book_label(&t, "557STANDRD"), "557 Standards");
    assert_eq!(book_label(&t, "Plain"), "Plain");
    assert_eq!(book_subtitle(&t, "557standrd", 33), "557 Standards \u{b7} p.34");
    assert_eq!(book_subtitle(&t, "Plain", 0), "Plain \u{b7} p.1");
}

#[test]
fn later_title_for_a_name_wins() {
    let t = vec![("a".to_string(), "First".to_string()), ("a".to_string(), "Second".to_string())];
    assert_eq!(book_label(&t, "A"), "Second");
}

#[test]
fn status_lines() {
    assert_eq!(idle_status(42, 3, "/d/pdfs"), "42 songs indexed. Type to search.");
    assert_eq!(
        idle_status(0, 0, "/d/pdfs"),
        "No song indexes found in\n/d/pdfs\nTap Reload to download them."
    );
    assert_eq!(idle_status(0, 2, "/d/pdfs"), "No PDFs installed yet. Copy them to\n/d/pdfs\nvia USB.");
    assert_eq!(results_status(0), "No results");
    assert_eq!(results_status(7), "7 result(s)");
    assert_eq!(search_query("  blue "), Some("blue".to_string()));
    assert_eq!(search_query("   "), None);
    assert_eq!(start_tab(true), TAB_BOOKS);
    assert_eq!(start_tab(false), TAB_SEARCH);
}

#[test]
fn viewer_opens_inside_the_book_and_steps_pages() {
    let v = ViewerState::open("/p/b.pdf".to_string(), 500, 120, 3);
    assert_eq!(v.page, 119);
    assert_eq!(v.render_width, RENDER_WIDTH);
    assert_eq!(ViewerState::open(String::new(), -4, 120, 0).page, 0);
    assert_eq!(ViewerState::open(String::new(), 7, 0, 0).page, 0);

    let mut v = ViewerState::open("/p/b.pdf".to_string(), 10, 12, 0);
    assert!(v.next_page());
    assert_eq!(v.page, 11);
    assert!(!v.next_page()); // last page
    assert_eq!(v.page, 11);
    assert!(v.prev_page());
    assert_eq!(v.page, 10);
    let mut first = ViewerState::open(String::new(), 0, 12, 0);
    assert!(!first.prev_page());
    let mut empty = ViewerState::open(String::new(), 0, 0, 0);
    assert!(!empty.next_page());
}

#[test]
fn result_navigation() {
    assert_eq!(next_result(Some(0), 3), Some(1));
    assert_eq!(next_result(Some(2), 3), None);
    assert_eq!(next_result(None, 3), None);
    assert_eq!(prev_result(Some(2)), Some(1));
    assert_eq!(prev_result(Some(0)), None);
    assert_eq!(prev_result(None), None);
}

// --- downloads -----------------------------------------------------------------

#[test]
fn manifest_lists_trimmed_db_names() {
    let names = tunecall::sync::manifest_names("a.db\n\n  b.db \r\nREADME\nc.DB\n.db\nlast.db");
    assert_eq!(names, strings(&["a.db", "b.db", ".db", "last.db"]));
    assert!(tunecall::sync::manifest_names("").is_empty());
}

#[test]
fn file_urls_sit_under_the_base_url() {
    assert_eq!(tunecall::sync::file_url("index.txt"), "http://www.davidfaure.fr/tunecall/index.txt");
    assert_eq!(tunecall::sync::file_url("realbk1h.db"), "http://www.davidfaure.fr/tunecall/realbk1h.db");
}

#[test]
fn moves_at_the_largest_index_are_noops() {
    let mut s = vec![setlist_song("a"), setlist_song("b")];
    move_down(&mut s, usize::MAX);
    move_up(&mut s, usize::MAX);
    assert_eq!(titles(&s), ["a", "b"]);
    let mut lists = vec![Setlist { name: "Gig".into(), songs: vec![setlist_song("a"), setlist_song("b")] }];
    assert!(move_song_down_in_editing(&mut lists, Some(0), usize::MAX));
    assert_eq!(titles(&lists[0].songs), ["a", "b"]);
}

#[test]
fn editor_reports_when_to_save() {
    let mut lists: Vec<Setlist> = Vec::new();
    assert!(!create_setlist(&mut lists, "  "));
    assert!(create_setlist(&mut lists, "Gig"));
    assert!(!rename_setlist(&mut lists, 0, " "));
    assert!(rename_setlist(&mut lists, 3, "Other")); // saved, though nothing to rename
    assert_eq!(lists[0].name, "Gig");
    let song = sample_song("All Blues", "realbk1h", 12);
    assert!(!add_song_to_editing(&mut lists, None, &song));
    assert!(lists[0].songs.is_empty());
    assert!(add_song_to_editing(&mut lists, Some(0), &song));
    assert!(add_song_to_editing(&mut lists, Some(4), &song));
    assert_eq!(lists[0].songs.len(), 1);
    assert!(!remove_song_from_editing(&mut lists, None, 0));
    assert!(!move_song_up_in_editing(&mut lists, None, 0));
    assert!(!move_song_down_in_editing(&mut lists, None, 0));
    assert!(remove_song_from_editing(&mut lists, Some(0), 0));
    assert!(lists[0].songs.is_empty());
}

#[test]
fn open_at_opens_inside_the_list_only() {
    let nav = vec![sample_song("All Blues", "realbk1h", 12), sample_song("So What", "realbk1h", 400)];
    assert!(open_at(&nav, 2, 100).is_none());
    assert!(open_at(&nav, usize::MAX, 100).is_none());
    assert!(open_at(&[], 0, 100).is_none());
    let o = open_at(&nav, 1, 100).unwrap();
    assert_eq!(o.state.path, "/p/realbk1h.pdf");
    assert_eq!(o.state.page, 99);
    assert_eq!(o.state.count, 100);
    assert_eq!(o.state.result_idx, 1);
    assert_eq!(o.state.render_width, RENDER_WIDTH);
    assert_eq!((o.result_index, o.result_count), (1, 2));
    assert_eq!(open_at(&nav, 0, 0).unwrap().state.page, 0);
}

#[test]
fn search_over_given_lowercase_titles() {
    let songs = vec![song("So What", "B"), song("Blue Bossa", "C"), song("ALL BLUES", "A")];
    // The caller supplies the lower-cased titles; here "so what" is given a
    // different text on purpose, to show which text is searched.
    let lows = strings(&["blue so what", "blue bossa", "all blues"]);
    let hits = search_lowered(&songs, &lows, "blue", 10);
    let got: Vec<&str> = hits.iter().map(|s| s.title.as_str()).collect();
    assert_eq!(got, vec!["ALL BLUES", "Blue Bossa", "So What"]);
    assert!(search_lowered(&songs, &lows, "BLUE", 10).is_empty());
    assert_eq!(search_lowered(&songs, &lows, "", 1).len(), 1);
}

#[test]
fn label_by_lowercase_key() {
    let t = vec![("557standrd".to_string(), "557 Standards".to_string())];
    assert_eq!(book_label_by_key(&t, "557standrd", "557STANDRD"), "557 Standards");
    assert_eq!(book_label_by_key(&t, "557STANDRD", "557STANDRD"), "557STANDRD");
}
