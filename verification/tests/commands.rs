use morg::agenda::{advance_date, agenda, agenda_entries, AgendaKind};
use morg::archive::{archive_file_path, find_archived_ranges, split_archived};
use morg::capture::{capture_into, capture_template, expand_home, render_heading, render_template, CaptureConfigError, CaptureTemplate};
use morg::clock::{clock_events, pair_clock_events};
use morg::collect::{todo_sequences, walk_tags};
use morg::columns::{parse_columns, render_table};
use morg::ical::{as_rrule, build_summary, calendar_items, export_calendar, ical_start, ItemKind};
use morg::ids::{apply_id_insertions, generate_uuid, id_insertions};
use morg::paths::is_markdown;
use morg::refile::{
    detect_heading_level, find_heading, find_heading_insert_point, find_subtree_end,
    insert_subtree, move_subtree, parse_spec, remove_subtree, target_insert_line, LocationSpec,
};
use morg::refs::collect_ids_and_refs;
use morg::todos::{sort_entries, todo_entries};
use morg::{parse_document, Date, DateTime, Repeater, RepeaterUnit, StringMap, Time, Timestamp};

fn lines_of(s: &str) -> Vec<Vec<char>> {
    s.split('\n').map(|l| l.chars().collect()).collect()
}

fn date(year: i32, month: u32, day: u32) -> Date {
    Date { year, month, day }
}

// ---------------------------------------------------------------------------
// archive
// ---------------------------------------------------------------------------

#[test]
fn archive_inline_tag_range() {
    let src = "# A #archive\nx\n# B\ny\n";
    let doc = parse_document(src).document;
    let total = src.split('\n').count();
    let ranges = find_archived_ranges(&doc.children, total);
    assert_eq!(ranges, vec![(0, 2)]);
    let (archived, remaining) = split_archived(src, &ranges);
    assert_eq!(archived, "# A #archive\nx\n\n");
    assert_eq!(remaining, "# B\ny\n\n");
}

#[test]
fn archive_block_tag_and_subheadings() {
    let src = "# A\n#archive\ntext\n## sub\nmore\n# B\nkeep\n";
    let doc = parse_document(src).document;
    let ranges = find_archived_ranges(&doc.children, src.split('\n').count());
    assert_eq!(ranges, vec![(0, 5)]);
    let (archived, remaining) = split_archived(src, &ranges);
    assert_eq!(archived, "# A\n#archive\ntext\n## sub\nmore\n\n");
    assert_eq!(remaining, "# B\nkeep\n\n");
}

#[test]
fn archive_nothing_archived() {
    let src = "# A\n# B\n";
    let doc = parse_document(src).document;
    assert!(find_archived_ranges(&doc.children, 3).is_empty());
}

#[test]
fn archive_trailing_newlines_trimmed() {
    let src = "keep\n\n\n# A #archive\nx";
    let doc = parse_document(src).document;
    let ranges = find_archived_ranges(&doc.children, src.split('\n').count());
    assert_eq!(ranges, vec![(3, 5)]);
    let (_, remaining) = split_archived(src, &ranges);
    assert_eq!(remaining, "keep\n\n");
}

#[test]
fn archive_file_names() {
    assert_eq!(archive_file_path("notes/todo.md", "_archive"), "notes/todo_archive.md");
    assert_eq!(archive_file_path("README", "_archive"), "README_archive");
    assert_eq!(archive_file_path(".hidden", "_old"), ".hidden_old");
    assert_eq!(archive_file_path("a.b/c.tar.gz", "_x"), "a.b/c.tar_x.gz");
    assert_eq!(archive_file_path("a.", "_x"), "a_x");
}

// ---------------------------------------------------------------------------
// refile
// ---------------------------------------------------------------------------

#[test]
fn refile_parse_spec_forms() {
    assert_eq!(
        parse_spec("notes.md:12"),
        Ok(("notes.md".to_string(), LocationSpec::Line(12)))
    );
    assert_eq!(
        parse_spec("notes.md::Inbox"),
        Ok(("notes.md".to_string(), LocationSpec::Heading("Inbox".to_string())))
    );
    assert_eq!(parse_spec("notes.md"), Ok(("notes.md".to_string(), LocationSpec::End)));
    assert_eq!(parse_spec("notes.md::"), Ok(("notes.md".to_string(), LocationSpec::End)));
    assert_eq!(
        parse_spec("C:x::y"),
        Ok(("C:x".to_string(), LocationSpec::Heading("y".to_string())))
    );
    assert_eq!(
        parse_spec("a.md:99999999999"),
        Err("invalid line number: 99999999999".to_string())
    );
}

#[test]
fn refile_find_heading_by_line_and_text() {
    let src = "intro\n# Inbox\nitem\n## Later\n";
    let doc = parse_document(src).document;
    let lines = lines_of(src);
    assert_eq!(find_heading(&doc.children, &LocationSpec::Line(2), &lines), Ok(1));
    assert_eq!(
        find_heading(&doc.children, &LocationSpec::Line(1), &lines),
        Err("line 1 is not a heading: intro".to_string())
    );
    assert_eq!(
        find_heading(&doc.children, &LocationSpec::Line(40), &lines),
        Err("line 40 is past end of file".to_string())
    );
    assert_eq!(
        find_heading(&doc.children, &LocationSpec::Heading("LATER".to_string()), &lines),
        Ok(3)
    );
    assert_eq!(
        find_heading(&doc.children, &LocationSpec::Heading("nope".to_string()), &lines),
        Err("heading matching \"nope\" not found".to_string())
    );
    assert_eq!(
        find_heading(&doc.children, &LocationSpec::End, &lines),
        Err("source must specify a heading, not end of file".to_string())
    );
}

#[test]
fn refile_levels_and_subtrees() {
    assert_eq!(detect_heading_level("  ### x"), 3);
    assert_eq!(detect_heading_level("text"), 0);
    let src = "# A\na\n## A1\n# B\nb\n";
    let doc = parse_document(src).document;
    assert_eq!(find_subtree_end(1, 0, &doc.children, 6), 3);
    assert_eq!(find_subtree_end(2, 2, &doc.children, 6), 3);
    assert_eq!(find_subtree_end(1, 3, &doc.children, 6), 6);
    assert_eq!(find_heading_insert_point(&doc.children, "a", 6), Ok(3));
    assert_eq!(
        find_heading_insert_point(&doc.children, "zz", 6),
        Err("target heading matching \"zz\" not found".to_string())
    );
    assert_eq!(target_insert_line(&doc.children, &LocationSpec::End, 6), Ok(6));
    assert_eq!(target_insert_line(&doc.children, &LocationSpec::Line(2), 6), Ok(1));
    assert_eq!(target_insert_line(&doc.children, &LocationSpec::Line(99), 6), Ok(6));
}

#[test]
fn refile_move_within_file() {
    let lines = lines_of("# A\na\n# B\nb");
    // Move A (lines 0..2) to the end of the text.
    assert_eq!(move_subtree(&lines, 0, 2, 4), "# B\nb\n\n# A\na");
    // Move B (lines 2..4) to the top.
    assert_eq!(move_subtree(&lines, 2, 4, 0), "\n# B\nb\n# A\na");
}

#[test]
fn refile_across_files() {
    let source = lines_of("# A\na\n# B\nb");
    let target = lines_of("# T\nt");
    assert_eq!(remove_subtree(&source, 0, 2), "# B\nb");
    assert_eq!(insert_subtree(&target, 1, &source, 0, 2), "# T\n\n# A\na\nt");
    assert_eq!(insert_subtree(&target, 10, &source, 2, 4), "# T\nt\n\n# B\nb");
}

// ---------------------------------------------------------------------------
// agenda
// ---------------------------------------------------------------------------

#[test]
fn agenda_weekly_deadline() {
    let doc = parse_document("# Weekly\n#deadline 2026-04-10 +1w -3d\n").document;
    let contexts = walk_tags("notes.md", &doc);
    let items = agenda(&contexts, date(2026, 4, 8)).unwrap();
    assert_eq!(items.len(), 13);
    assert_eq!(items[0].date, date(2026, 4, 10));
    assert_eq!(items[12].date, date(2026, 7, 3));
    assert!(items.iter().all(|e| e.recurring && !e.is_warning));
    assert_eq!(items[0].location, "notes.md:2");
    assert_eq!(items[0].kind.label(), "DEADLINE");
}

#[test]
fn agenda_sorted_with_warning() {
    let src = "#event 2026-04-20 Party\n#date 2026-03-01\n#scheduled 2026-05-01 -10d\n";
    let doc = parse_document(src).document;
    let contexts = walk_tags("n.md", &doc);
    let entries = agenda_entries(&contexts);
    assert_eq!(entries.len(), 3);
    let items = agenda(&contexts, date(2026, 4, 8)).unwrap();
    let got: Vec<(Date, AgendaKind, bool)> =
        items.iter().map(|e| (e.date, e.kind, e.is_warning)).collect();
    assert_eq!(
        got,
        vec![
            (date(2026, 3, 1), AgendaKind::Date, false),
            (date(2026, 4, 20), AgendaKind::Event, false),
            (date(2026, 4, 21), AgendaKind::Scheduled, true),
            (date(2026, 5, 1), AgendaKind::Scheduled, false),
        ]
    );
    assert_eq!(items[1].description, Some("Party".to_string()));
}

#[test]
fn agenda_monthly_clamps_day() {
    let doc = parse_document("#date 2026-01-31 +1m\n").document;
    let contexts = walk_tags("n.md", &doc);
    let items = agenda(&contexts, date(2026, 4, 8)).unwrap();
    let dates: Vec<Date> = items.iter().map(|e| e.date).collect();
    assert_eq!(dates, vec![date(2026, 4, 28), date(2026, 5, 28), date(2026, 6, 28)]);
}

#[test]
fn agenda_skips_archived() {
    let doc = parse_document("# Old #archive\n#deadline 2026-04-10\n").document;
    let contexts = walk_tags("n.md", &doc);
    assert!(agenda_entries(&contexts).is_empty());
}

#[test]
fn agenda_advance_dates() {
    let year = Repeater { interval: 1, unit: RepeaterUnit::Year };
    assert_eq!(advance_date(date(2024, 2, 29), year), Some(date(2025, 2, 28)));
    let day = Repeater { interval: 3, unit: RepeaterUnit::Day };
    assert_eq!(advance_date(date(2026, 12, 30), day), Some(date(2027, 1, 2)));
    let month = Repeater { interval: 13, unit: RepeaterUnit::Month };
    assert_eq!(advance_date(date(2026, 1, 31), month), Some(date(2027, 2, 28)));
}

// ---------------------------------------------------------------------------
// ical
// ---------------------------------------------------------------------------

#[test]
fn ical_summaries() {
    assert_eq!(build_summary(Some("Buy"), Some("Shop")), "Buy (Shop)");
    assert_eq!(build_summary(Some(""), Some("Shop")), "Shop");
    assert_eq!(build_summary(Some("Buy"), None), "Buy");
    assert_eq!(build_summary(None, None), "Untitled");
}

#[test]
fn ical_items_from_tags() {
    let src = "# Plan\n#todo buy milk\n#deadline 2026-04-10 +1w\n#event 2026-05-01 Party\n#date 2026-06-01\n";
    let doc = parse_document(src).document;
    let contexts = walk_tags("p.md", &doc);
    let items = calendar_items(&contexts);
    let got: Vec<(ItemKind, String)> = items.iter().map(|i| (i.kind, i.summary.clone())).collect();
    assert_eq!(
        got,
        vec![
            (ItemKind::Todo, "buy milk (Plan)".to_string()),
            (ItemKind::Event, "DEADLINE: Plan".to_string()),
            (ItemKind::Event, "Party".to_string()),
            (ItemKind::Event, "Date: Plan".to_string()),
        ]
    );
    assert_eq!(items[1].location, "p.md:3");
    assert_eq!(items[1].repeater, Some(Repeater { interval: 1, unit: RepeaterUnit::Week }));
}

#[test]
fn ical_properties() {
    let d = Timestamp::Date(date(2026, 4, 10));
    assert_eq!(ical_start(&d), ("DTSTART;VALUE=DATE".to_string(), "20260410".to_string()));
    let dt = Timestamp::DateTime(DateTime {
        date: date(2026, 4, 10),
        time: Time { hour: 14, minute: 5, second: 0 },
    });
    assert_eq!(ical_start(&dt), ("DTSTART".to_string(), "20260410T140500".to_string()));
    assert_eq!(
        as_rrule(&Repeater { interval: 2, unit: RepeaterUnit::Month }),
        "FREQ=MONTHLY;INTERVAL=2"
    );
}

#[test]
fn ical_export_text() {
    let src = "# Plan\n#todo buy milk\n#done pay rent\n#deadline 2026-04-10 +1w\n";
    let doc = parse_document(src).document;
    let contexts = walk_tags("p.md", &doc);
    let items = calendar_items(&contexts);
    let ics = export_calendar(&items).expect("items to export");
    assert!(ics.starts_with("BEGIN:VCALENDAR\r\n"));
    assert!(ics.ends_with("END:VCALENDAR\r\n"));
    assert!(ics.contains("NAME:morg-mode\r\n"));
    assert_eq!(ics.matches("BEGIN:VTODO").count(), 2);
    assert_eq!(ics.matches("BEGIN:VEVENT").count(), 1);
    assert!(ics.contains("SUMMARY:buy milk (Plan)\r\n"));
    assert!(ics.contains("STATUS:NEEDS-ACTION\r\n"));
    assert!(ics.contains("STATUS:COMPLETED\r\n"));
    assert!(ics.contains("PERCENT-COMPLETE:100\r\n"));
    assert!(ics.contains("DESCRIPTION:Source: p.md:2\r\n"));
    assert!(ics.contains("X-MORG-SOURCE:p.md:4\r\n"));
    assert!(ics.contains("DTSTART;VALUE=DATE:20260410\r\n"));
    assert!(ics.contains("RRULE:FREQ=WEEKLY;INTERVAL=1\r\n"));
    assert!(export_calendar(&Vec::new()).is_none());
}

// ---------------------------------------------------------------------------
// capture
// ---------------------------------------------------------------------------

#[test]
fn capture_templates() {
    assert_eq!(
        render_template("- {input} ({date} {time})", "milk", "2026-04-08", "2026-04-08T10:00", "10:00"),
        "- milk (2026-04-08 10:00)"
    );
    assert_eq!(render_template("{datetime}", "", "d", "dt", "t"), "dt");
    assert_eq!(render_heading("## {date}", "x", "2026-04-08"), "## 2026-04-08");
}

#[test]
fn capture_appending() {
    assert_eq!(capture_into("", Some("# Inbox"), "- milk"), "\n# Inbox\n- milk\n");
    assert_eq!(capture_into("a", None, "b"), "a\nb\n");
    assert_eq!(capture_into("", None, "b"), "b\n");
    assert_eq!(capture_into("x\n# Inbox\n", Some("# Inbox"), "y"), "x\n# Inbox\ny\n");
    assert_eq!(capture_into("x", Some("# In"), "y"), "x\n\n# In\ny\n");
}

#[test]
fn capture_home_expansion() {
    assert_eq!(expand_home("~/notes/inbox.md", "/home/u"), "/home/u/notes/inbox.md");
    assert_eq!(expand_home("/abs/x.md", "/home/u"), "/abs/x.md");
    assert_eq!(expand_home("~", "/home/u"), "~");
}

// ---------------------------------------------------------------------------
// paths, ids
// ---------------------------------------------------------------------------

#[test]
fn markdown_extensions() {
    assert!(is_markdown("a/b.md"));
    assert!(is_markdown("x.markdown"));
    assert!(is_markdown("x.morg"));
    assert!(!is_markdown("x.txt"));
    assert!(!is_markdown(".md"));
    assert!(!is_markdown("dir.md/file"));
}

#[test]
fn uuid_shape() {
    let a = generate_uuid(1_700_000_000_000_000_000, 0);
    assert_eq!(a.len(), 36);
    let c: Vec<char> = a.chars().collect();
    for (i, ch) in c.iter().enumerate() {
        if [8, 13, 18, 23].contains(&i) {
            assert_eq!(*ch, '-');
        } else {
            assert!(ch.is_ascii_hexdigit() && !ch.is_ascii_uppercase());
        }
    }
    assert_eq!(c[14], '4');
    assert!("89ab".contains(c[19]));
    assert_eq!(a, generate_uuid(1_700_000_000_000_000_000, 0));
    assert_ne!(a, generate_uuid(1_700_000_000_000_000_000, 1));
}

#[test]
fn ids_inserted_after_headings() {
    let src = "# A\ntext\n# B\n#properties\nid = x\n#end\n";
    let doc = parse_document(src).document;
    let ins = id_insertions(&doc);
    assert_eq!(ins.len(), 1);
    assert_eq!(ins[0].line, 0);
    assert!(!ins[0].has_drawer);
    let out = apply_id_insertions(src, &vec![(0, "u1".to_string(), false)]);
    assert_eq!(out, "# A\n\n#properties\nid = u1\n#end\ntext\n# B\n#properties\nid = x\n#end\n");
    let out2 = apply_id_insertions("# A\n#properties\n#end", &vec![(1, "u2".to_string(), true)]);
    assert_eq!(out2, "# A\n#properties\nid = u2\n#end");
}

// ---------------------------------------------------------------------------
// columns, refs, todos, clock
// ---------------------------------------------------------------------------

#[test]
fn columns_table_rendering() {
    let cols = parse_columns(" todo , file");
    assert_eq!(cols, vec!["todo".to_string(), "file".to_string()]);
    let rows = vec![vec!["TODO".to_string(), "a.md:1".to_string()], vec!["".to_string()]];
    let lines = render_table(&cols, &rows);
    assert_eq!(
        lines,
        vec![
            "| TODO | FILE   |".to_string(),
            "|------|--------|".to_string(),
            "| TODO | a.md:1 |".to_string(),
            "|      |        |".to_string(),
        ]
    );
}

#[test]
fn refs_collected_from_links() {
    let src = "# A\nsee [x](id:abc) and [y](id:def)\n";
    let doc = parse_document(src).document;
    let mut ids: StringMap<(String, String)> = StringMap::new();
    let mut refs: Vec<(String, String, u32)> = Vec::new();
    collect_ids_and_refs(&doc.children, "f.md", &mut ids, &mut refs);
    assert_eq!(
        refs,
        vec![
            ("abc".to_string(), "f.md".to_string(), 2),
            ("def".to_string(), "f.md".to_string(), 2)
        ]
    );
}

#[test]
fn todos_collected_and_sorted() {
    let src = "# A\n#priority B\n#todo write tests\n#done fixed\n#priority A\n#todo ship\n";
    let doc = parse_document(src).document;
    let contexts = walk_tags("t.md", &doc);
    let seqs = todo_sequences(&doc);
    let entries = todo_entries(&contexts, &seqs);
    let got: Vec<(String, String)> =
        entries.iter().map(|e| (e.status.clone(), e.text.clone())).collect();
    assert_eq!(
        got,
        vec![
            ("TODO".to_string(), "write tests".to_string()),
            ("DONE".to_string(), "fixed".to_string()),
            ("TODO".to_string(), "ship".to_string()),
        ]
    );
    let sorted = sort_entries(entries);
    let texts: Vec<String> = sorted.iter().map(|e| e.text.clone()).collect();
    assert_eq!(texts, vec!["ship", "write tests", "fixed"]);
}

#[test]
fn clock_pairs_and_totals() {
    let src = "# Work\n#clock-in 2026-04-03T09:00\n#clock-out 2026-04-03T10:30\n#clock 2h15m\n#clock-in 2026-04-03T12:00\n";
    let doc = parse_document(src).document;
    let contexts = walk_tags("w.md", &doc);
    let events = clock_events(&contexts, None);
    assert_eq!(events.len(), 4);
    let totals = pair_clock_events(&events);
    assert_eq!(totals.total, 225);
    assert_eq!(totals.unpaired_ins, vec![3]);
    assert_eq!(totals.per_heading.get("Work"), Some(&225));
    assert!(clock_events(&contexts, Some("home")).is_empty());
    assert_eq!(clock_events(&contexts, Some("WORK")).len(), 4);
}

#[test]
fn todos_of_equal_rank_keep_their_order() {
    let src = "# A\n#todo first\n#done old\n#todo second\n#todo third\n";
    let doc = parse_document(src).document;
    let contexts = walk_tags("t.md", &doc);
    let seqs = todo_sequences(&doc);
    let sorted = sort_entries(todo_entries(&contexts, &seqs));
    let texts: Vec<String> = sorted.iter().map(|e| e.text.clone()).collect();
    assert_eq!(texts, vec!["first", "second", "third", "old"]);
}

#[test]
fn clock_events_carry_heading_and_location() {
    let src = "# Work\n#clock-in 2026-04-03T09:00\n#clock-out 2026-04-03T10:30\n";
    let doc = parse_document(src).document;
    let contexts = walk_tags("w.md", &doc);
    let events = clock_events(&contexts, None);
    assert_eq!(events.len(), 2);
    assert_eq!(events[0].heading, "Work");
    assert_eq!(events[0].location, "w.md:2");
    assert_eq!(events[1].location, "w.md:3");
}

#[test]
fn todos_of_equal_rank_sort_by_location() {
    let a = parse_document("# A\n\n#todo later file\n").document;
    let b = parse_document("# B\n#todo earlier file\n").document;
    let cb = walk_tags("b.md", &b);
    let ca = walk_tags("a.md", &a);
    let mut entries = todo_entries(&cb, &todo_sequences(&b));
    entries.extend(todo_entries(&ca, &todo_sequences(&a)));
    let sorted = sort_entries(entries);
    let locs: Vec<String> = sorted.iter().map(|e| e.location.clone()).collect();
    assert_eq!(locs, vec!["a.md:3", "b.md:2"]);
}

#[test]
fn capture_goes_under_an_existing_heading() {
    assert_eq!(
        capture_into("# A\nold\n\n## B\nrest\n", Some("# A"), "new"),
        "# A\nold\n\nnew\n## B\nrest\n"
    );
    assert_eq!(
        capture_into("# A\nold", Some("# A"), "new"),
        "# A\nold\nnew\n"
    );
}

#[test]
fn capture_config_templates() {
    let config = "templates:\n  todo:\n    target: ~/inbox.md\n    template: \"- {input}\"\n    heading: \"# Inbox\"\n  note:\n    target: notes.md\n    template: \"{input}\"\n  bad:\n    template: x\n  half:\n    target: t.md\n";
    assert_eq!(
        capture_template(config, "todo"),
        Ok(CaptureTemplate {
            target: "~/inbox.md".to_string(),
            template: "- {input}".to_string(),
            heading: Some("# Inbox".to_string()),
        })
    );
    assert_eq!(
        capture_template(config, "note"),
        Ok(CaptureTemplate { target: "notes.md".to_string(), template: "{input}".to_string(), heading: None })
    );
    assert_eq!(capture_template(config, "bad"), Err(CaptureConfigError::MissingTarget));
    assert_eq!(capture_template(config, "half"), Err(CaptureConfigError::MissingTemplate));
    assert_eq!(
        capture_template(config, "other"),
        Err(CaptureConfigError::UnknownTemplate("other".to_string()))
    );
    assert_eq!(
        capture_template(config, "other").unwrap_err().message(),
        "Template 'other' not found in config"
    );
    assert_eq!(capture_template("other: 1\n", "todo"), Err(CaptureConfigError::NoTemplates));
    assert_eq!(CaptureConfigError::NoTemplates.message(), "No 'templates' key in capture config");
    assert_eq!(CaptureConfigError::MissingTarget.message(), "Template missing 'target' field");
    assert_eq!(CaptureConfigError::MissingTemplate.message(), "Template missing 'template' field");
    assert_eq!(CaptureConfigError::InvalidYaml("bad".to_string()).message(), "bad");
    assert!(matches!(capture_template("a: [\n", "todo"), Err(CaptureConfigError::InvalidYaml(_))));
}
