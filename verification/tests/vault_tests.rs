use gera::events::{
    event_entries, event_fields_of, event_to_yaml, metadata_value, check_new_event_id, default_metadata, event_from_fields, event_index, event_position, new_event,
    positions_after_delete, updated_event, EventFields,
};
use gera::gcal::{google_event_to_entity, parse_gcal_datetime, plan_sync, GCalEventFields, SyncStep};
use gera::models::{EventEntity, EventMetadata, TaskEntity, TimeReference};
use gera::numbers::{i64_chars, parse_i64};
use gera::paths::{file_name, file_stem, is_relevant, recent_vault_infos, strip_root};
use gera::queries::{events_page_query, like_pattern, notes_page_query, projects_page_query, tasks_page_query};
use gera::renderer::{render, render_body, replace_gera_refs};
use gera::repository::{
    classify_changes, create_task_in_text, delete_task_in_text, inherit_note_ids,
    inherit_project_ids, merge_ids, normalize_page_size, note_entity, page_of, parse_cursor,
    project_entity, should_resolve, task_reload_target, toggle_task_in_text, update_task_in_text, ReloadTarget,
};
use gera::storage::{
    body_preview, default_local, ensure_md_ext, events_file, extract_title,
    find_frontmatter_close, frame_frontmatter, frontmatter_event_ids, frontmatter_ids,
    frontmatter_project_ids, parse_frontmatter,
    is_valid_vault, join_path_str, note_file, note_frontmatter_ids, notes_dir, project_file,
    projects_dir, push_recent_vault, recent_from_entries, recent_vaults_of, resolve_startup_vault,
    sanitize_content, split_frontmatter, tasks_file, verify_structure, StructureProbe,
};
use gera::tasks::{has_distinct_keys, parse_tasks_from_markdown, resolve_tasks, task_resolvable, EventRef};
use gera::json::JsonValue;
use gera::yaml::YamlValue;
use gera::time::{compute_offset, parse_iso_datetime};
use gera::watcher::{changed_paths, debounce_step, Debounce};

fn s(x: &str) -> String {
    x.to_string()
}

fn strings(xs: &[&str]) -> Vec<String> {
    xs.iter().map(|x| x.to_string()).collect()
}

fn probe(root: bool, notes: bool, projects: bool, events: bool, tasks: bool) -> StructureProbe {
    StructureProbe {
        root_is_dir: root,
        notes_is_dir: notes,
        projects_is_dir: projects,
        events_exists: events,
        tasks_exists: tasks,
    }
}

fn gcal_meta(account: &str, cal: &str, source_id: &str, etag: &str) -> EventMetadata {
    EventMetadata {
        source_platform: s("google_calendar"),
        source_account: s(account),
        source_event_id: s(source_id),
        source_calendar_id: s(cal),
        etag: s(etag),
        last_synced_at: None,
        recurring_event_id: String::new(),
        source_updated_at: None,
    }
}

fn event(id: &str, meta: EventMetadata) -> EventEntity {
    EventEntity {
        id: s(id),
        source: s("google_calendar"),
        from_: s("2026-02-20T10:00:00"),
        to: s("2026-02-20T11:00:00"),
        name: s("Standup"),
        description: String::new(),
        participants: Vec::new(),
        location: String::new(),
        metadata: meta,
    }
}

fn plain_task(line_number: i64) -> TaskEntity {
    TaskEntity {
        text: s("t"),
        completed: false,
        raw_line: s("- [ ] t"),
        source_file: s("tasks.md"),
        line_number,
        deadline: None,
        event_ids: Vec::new(),
        project_ids: Vec::new(),
        time_references: Vec::new(),
        resolved_event_names: Vec::new(),
        resolved_project_names: Vec::new(),
    }
}

// ---------------------------------------------------------------------------
// Vault layout
// ---------------------------------------------------------------------------

#[test]
fn vault_paths_join_under_root() {
    assert_eq!(events_file("/vault"), "/vault/events.yaml");
    assert_eq!(tasks_file("/vault"), "/vault/tasks.md");
    assert_eq!(notes_dir("/vault/"), "/vault/notes");
    assert_eq!(projects_dir(""), "projects");
    assert_eq!(note_file("/vault", "idea"), "/vault/notes/idea.md");
    assert_eq!(note_file("/vault", "idea.md"), "/vault/notes/idea.md");
    assert_eq!(project_file("/vault", "launch"), "/vault/projects/launch.md");
}

#[test]
fn join_with_absolute_name_replaces_base() {
    assert_eq!(join_path_str("/vault", "/elsewhere/x.md"), "/elsewhere/x.md");
    assert_eq!(join_path_str("/vault/", "x.md"), "/vault/x.md");
    assert_eq!(join_path_str("", "x.md"), "x.md");
}

#[test]
fn md_extension_is_added_once() {
    assert_eq!(ensure_md_ext("note"), "note.md");
    assert_eq!(ensure_md_ext("note.md"), "note.md");
    assert_eq!(ensure_md_ext(&ensure_md_ext("a.txt")), "a.txt.md");
    assert_eq!(ensure_md_ext(""), ".md");
}

#[test]
fn default_source_is_local() {
    assert_eq!(default_local(), "local");
}

#[test]
fn structure_lists_the_five_entries_in_order() {
    let m = verify_structure(&probe(true, false, true, true, false));
    assert_eq!(
        m,
        vec![
            (s("."), true),
            (s("notes"), false),
            (s("projects"), true),
            (s("events.yaml"), true),
            (s("tasks.md"), false),
        ]
    );
}

#[test]
fn vault_validity_needs_root_events_and_tasks() {
    assert!(is_valid_vault(&probe(true, false, false, true, true)));
    assert!(!is_valid_vault(&probe(true, true, true, false, true)));
    assert!(!is_valid_vault(&probe(true, true, true, true, false)));
    assert!(!is_valid_vault(&probe(false, true, true, true, true)));
}

#[test]
fn startup_resumes_the_last_valid_vault() {
    let recent = strings(&["/a", "/b"]);
    assert_eq!(resolve_startup_vault(&recent, &probe(true, true, true, true, true)), Some(s("/a")));
    assert_eq!(resolve_startup_vault(&recent, &probe(true, true, true, false, true)), None);
    assert_eq!(resolve_startup_vault(&Vec::new(), &probe(true, true, true, true, true)), None);
}

// ---------------------------------------------------------------------------
// Content sanitising and front matter
// ---------------------------------------------------------------------------

#[test]
fn sanitize_decodes_spaces_and_trims_lines() {
    assert_eq!(sanitize_content("a&#x20;b  \nc\t\n"), "a b\nc\n");
    assert_eq!(sanitize_content("x  "), "x");
    assert_eq!(sanitize_content("a\r\nb"), "a\nb");
    assert_eq!(sanitize_content(""), "");
    assert_eq!(sanitize_content("\n\n"), "\n\n");
    assert_eq!(sanitize_content("&#x20;&#x20;end"), "  end");
}

#[test]
fn sanitizing_twice_is_sanitizing_once() {
    for x in ["a&#x20;b  \nc\t\n", "a\r", "a\n  ", "&#x2&#x20;0;", "\n\n\n", "x\r\n\r\n", ""] {
        let once = sanitize_content(x);
        assert_eq!(sanitize_content(&once), once);
    }
    assert_eq!(sanitize_content("&#x2&#x20;0;"), "&#x2 0;");
    assert_eq!(sanitize_content("a\n  "), "a\n");
}

#[test]
fn frontmatter_close_is_found_by_byte_offset() {
    assert_eq!(find_frontmatter_close("a: 1\n---\nbody"), Some(5));
    assert_eq!(find_frontmatter_close("---"), Some(0));
    assert_eq!(find_frontmatter_close("a: 1\n--- \n"), Some(5));
    assert_eq!(find_frontmatter_close("a: 1\nb: 2\n"), None);
    assert_eq!(find_frontmatter_close("é: 1\n---"), Some(6));
    assert_eq!(find_frontmatter_close("a\r\n---"), Some(3));
    assert_eq!(find_frontmatter_close("é: 1\r\nb: 2\r\n---\r\n"), Some(13));
}

#[test]
fn frontmatter_splits_yaml_from_body() {
    assert_eq!(
        split_frontmatter("---\ntitle: x\n---\nBody\n"),
        Some((s("title: x\n"), s("Body\n")))
    );
    assert_eq!(
        split_frontmatter("---\r\nk: v\r\n---\r\nrest"),
        Some((s("k: v\r\n"), s("rest")))
    );
    assert_eq!(split_frontmatter("no front matter"), None);
    assert_eq!(split_frontmatter("---\nnever closed\n"), None);
    assert_eq!(split_frontmatter("---x\n---\n"), None);
}

#[test]
fn frontmatter_framing() {
    assert_eq!(frame_frontmatter("---\na: 1\n", "\n\nbody"), "---\na: 1\n---\n\nbody");
    assert_eq!(frame_frontmatter("a: 1   ", "b"), "---\na: 1\n---\n\nb");
}

#[test]
fn frontmatter_roundtrip_example() {
    let framed = frame_frontmatter("event_ids:\n- e1\n", "\n# Title\ntext");
    assert_eq!(
        split_frontmatter(&framed),
        Some((s("event_ids:\n- e1\n"), s("\n# Title\ntext")))
    );
}

#[test]
fn frontmatter_id_lists_keep_strings_only() {
    let items = Some(vec![Some(s("a")), None, Some(s("b"))]);
    assert_eq!(frontmatter_ids(&items), strings(&["a", "b"]));
    assert_eq!(frontmatter_ids(&None), Vec::<String>::new());
    assert_eq!(note_frontmatter_ids(Some(Vec::new())), None);
    assert_eq!(note_frontmatter_ids(Some(strings(&["x"]))), Some(strings(&["x"])));
    assert_eq!(note_frontmatter_ids(None), None);
}

// ---------------------------------------------------------------------------
// Titles and previews
// ---------------------------------------------------------------------------

#[test]
fn title_from_first_heading() {
    assert_eq!(extract_title("intro\n# Hello World  \ntext"), "Hello World");
    assert_eq!(extract_title("   #   Spaced   "), "Spaced");
    assert_eq!(extract_title("## Overview\n# Project Gera\ntext"), "Project Gera");
}

#[test]
fn title_ignores_lower_headings() {
    assert_eq!(extract_title("   ### Deep   "), "### Deep");
    assert_eq!(extract_title("###### Six"), "###### Six");
    assert_eq!(extract_title("## Plan\n\n- [x] done\n"), "## Plan - [x] done");
}

#[test]
fn title_falls_back_to_six_words_then_untitled() {
    assert_eq!(extract_title("one two  three\nfour five six seven"), "one two three four five six");
    assert_eq!(extract_title("####### seven hashes"), "####### seven hashes");
    assert_eq!(extract_title("#NoSpace x"), "#NoSpace x");
    assert_eq!(extract_title(""), "Untitled");
    assert_eq!(extract_title("  \n\t"), "Untitled");
}

#[test]
fn preview_skips_headings_and_blank_lines() {
    assert_eq!(body_preview("# Title\n\nHello\nworld"), "Hello world");
    assert_eq!(body_preview("  # not kept\nHello\n  world  "), "Hello   world");
    assert_eq!(body_preview(""), "");
}

#[test]
fn preview_cuts_at_one_hundred_characters() {
    let long = "a".repeat(150);
    assert_eq!(body_preview(&long), format!("{}…", "a".repeat(100)));
    let accents = "é".repeat(120);
    assert_eq!(body_preview(&accents), format!("{}…", "é".repeat(100)));
    let exact = "b".repeat(100);
    assert_eq!(body_preview(&exact), exact);
}

#[test]
fn preview_counts_characters_not_bytes() {
    let mixed = format!("a{}", "é".repeat(60));
    assert_eq!(body_preview(&mixed), mixed);
    let text = format!("ab{}", "€".repeat(40));
    assert_eq!(body_preview(&text), text);
}

// ---------------------------------------------------------------------------
// Recent vaults
// ---------------------------------------------------------------------------

#[test]
fn opening_a_vault_moves_it_to_the_front() {
    let recent = strings(&["/a", "/b", "/c"]);
    assert_eq!(push_recent_vault(&recent, "/b"), strings(&["/b", "/a", "/c"]));
    assert_eq!(push_recent_vault(&recent, "/new"), strings(&["/new", "/a", "/b", "/c"]));
}

#[test]
fn recent_list_keeps_ten() {
    let recent: Vec<String> = (0..10).map(|i| format!("/v{}", i)).collect();
    let pushed = push_recent_vault(&recent, "/x");
    assert_eq!(pushed.len(), 10);
    assert_eq!(pushed[0], "/x");
    assert_eq!(pushed[9], "/v8");
    assert_eq!(push_recent_vault(&pushed, "/x"), pushed);
}

#[test]
fn recent_entries_keep_ten_strings() {
    let entries: Vec<Option<String>> =
        (0..12).map(|i| if i == 1 { None } else { Some(format!("/v{}", i)) }).collect();
    let r = recent_from_entries(&Some(entries));
    assert_eq!(r.len(), 10);
    assert_eq!(r[0], "/v0");
    assert_eq!(r[1], "/v2");
    assert_eq!(r[9], "/v10");
    assert_eq!(recent_from_entries(&None), Vec::<String>::new());
}

#[test]
fn recent_vault_names() {
    let infos = recent_vault_infos(&strings(&["/home/me/Gera", "/", "notes/"]));
    assert_eq!(infos[0].name, "Gera");
    assert_eq!(infos[0].path, "/home/me/Gera");
    assert_eq!(infos[1].name, "/");
    assert_eq!(infos[2].name, "notes");
}

// ---------------------------------------------------------------------------
// Paths
// ---------------------------------------------------------------------------

#[test]
fn path_names_and_stems() {
    assert_eq!(file_name("/a/b.md"), Some(s("b.md")));
    assert_eq!(file_name("/a/b/"), Some(s("b")));
    assert_eq!(file_name("/a/.."), None);
    assert_eq!(file_name("/"), None);
    assert_eq!(file_stem("projects/launch.md"), Some(s("launch")));
    assert_eq!(file_stem(".hidden"), Some(s(".hidden")));
    assert_eq!(file_stem("a.b.md"), Some(s("a.b")));
}

#[test]
fn relevant_paths_are_yaml_and_markdown() {
    assert!(is_relevant("/v/events.yaml"));
    assert!(is_relevant("/v/events.yml"));
    assert!(is_relevant("/v/notes/a.md"));
    assert!(!is_relevant("/v/notes/a.txt"));
    assert!(!is_relevant("/v/.md"));
    assert!(!is_relevant("/v/notes"));
}

#[test]
fn strip_root_by_components() {
    assert_eq!(strip_root("/v/notes/a.md", "/v"), Some(s("notes/a.md")));
    assert_eq!(strip_root("/v/notes/a.md", "/v/"), Some(s("notes/a.md")));
    assert_eq!(strip_root("/vault/a.md", "/v"), None);
}

#[test]
fn watcher_batch_is_relative_sorted_and_deduplicated() {
    let pending = strings(&["/v/tasks.md", "/v/notes/a.md", "/other/x.md", "/v/notes/a.md"]);
    assert_eq!(changed_paths(&pending, "/v"), strings(&["notes/a.md", "tasks.md"]));
}

// ---------------------------------------------------------------------------
// Paging
// ---------------------------------------------------------------------------

#[test]
fn page_size_is_clamped() {
    assert_eq!(normalize_page_size(None), 100);
    assert_eq!(normalize_page_size(Some(0)), 1);
    assert_eq!(normalize_page_size(Some(1000)), 500);
    assert_eq!(normalize_page_size(Some(42)), 42);
}

#[test]
fn cursor_parses_as_offset() {
    assert_eq!(parse_cursor(Some("20")), 20);
    assert_eq!(parse_cursor(Some("+7")), 7);
    assert_eq!(parse_cursor(Some("-5")), -5);
    assert_eq!(parse_cursor(Some("abc")), 0);
    assert_eq!(parse_cursor(Some("")), 0);
    assert_eq!(parse_cursor(Some("99999999999999999999")), 0);
    assert_eq!(parse_cursor(None), 0);
}

#[test]
fn pages_and_next_cursor() {
    assert_eq!(page_of(vec![1, 2, 3], 2, 0), (vec![1, 2], Some(s("2"))));
    assert_eq!(page_of(vec![1, 2], 2, 10), (vec![1, 2], None));
    let (page, next) = page_of(vec![7, 8, 9], 2, 40);
    assert_eq!(page, vec![7, 8]);
    assert_eq!(parse_cursor(next.as_deref()), 42);
}

#[test]
fn decimal_text_reads_back() {
    for n in [0i64, 7, -7, 1234567890, i64::MAX, i64::MIN] {
        let text: String = i64_chars(n).into_iter().collect();
        assert_eq!(text, n.to_string());
        assert_eq!(parse_i64(&text.chars().collect()), Some(n));
    }
}

// ---------------------------------------------------------------------------
// Task parsing
// ---------------------------------------------------------------------------

#[test]
fn parses_checkbox_tasks_with_references() {
    let text = "# T\n- [ ] Buy milk @2026-02-20T09:00 #home\n  * [x] Call @bob\nnot a task\n+ [X] Prep @before[30m]:meeting-1\n";
    let tasks = parse_tasks_from_markdown(text, "tasks.md");
    assert_eq!(tasks.len(), 3);

    assert_eq!(tasks[0].text, "Buy milk @2026-02-20T09:00 #home");
    assert!(!tasks[0].completed);
    assert_eq!(tasks[0].line_number, 2);
    assert_eq!(tasks[0].raw_line, "- [ ] Buy milk @2026-02-20T09:00 #home");
    assert_eq!(tasks[0].deadline, Some(s("2026-02-20T09:00:00")));
    assert_eq!(tasks[0].event_ids, Vec::<String>::new());
    assert_eq!(tasks[0].project_ids, strings(&["home"]));
    assert_eq!(tasks[0].source_file, "tasks.md");

    assert_eq!(tasks[1].text, "Call @bob");
    assert!(tasks[1].completed);
    assert_eq!(tasks[1].line_number, 3);
    assert_eq!(tasks[1].raw_line, "  * [x] Call @bob");
    assert_eq!(tasks[1].event_ids, strings(&["bob"]));

    assert_eq!(tasks[2].line_number, 5);
    assert!(tasks[2].completed);
    assert_eq!(tasks[2].event_ids, strings(&["meeting-1"]));
    assert_eq!(
        tasks[2].time_references,
        vec![TimeReference { modifier: s("before"), amount: 30, unit: s("m"), target_id: s("meeting-1") }]
    );
    assert_eq!(tasks[2].deadline, None);
}

#[test]
fn task_lines_need_text_after_the_checkbox() {
    let tasks = parse_tasks_from_markdown("- [ ]\n- [ ]   \n-[ ] x\n- [y] x\n- [ ] ok\r\n", "n.md");
    assert_eq!(tasks.len(), 1);
    assert_eq!(tasks[0].text, "ok");
    assert_eq!(tasks[0].line_number, 5);
    assert_eq!(tasks[0].raw_line, "- [ ] ok");
}

#[test]
fn references_use_unicode_word_and_digit_classes() {
    let tasks = parse_tasks_from_markdown("- [ ] see @réunion #café\n- [ ] at @٢٠٢٦-٠٢-٢٠T٠٩:٠٠\n", "tasks.md");
    assert_eq!(tasks[0].event_ids, strings(&["réunion"]));
    assert_eq!(tasks[0].project_ids, strings(&["café"]));
    assert_eq!(tasks[1].deadline, Some(s("٢٠٢٦-٠٢-٢٠T٠٩:٠٠:00")));
}

#[test]
fn later_datetime_overrides_and_after_modifier_is_kept() {
    let tasks = parse_tasks_from_markdown(
        "- [ ] x @2026-01-01T00:00 @2026-01-02T03:04 @after[2h]:ev.a @x",
        "tasks.md",
    );
    assert_eq!(tasks[0].deadline, Some(s("2026-01-02T03:04:00")));
    assert_eq!(tasks[0].event_ids, strings(&["ev.a", "x"]));
    assert_eq!(tasks[0].time_references.len(), 1);
    assert_eq!(tasks[0].time_references[0].modifier, "after");
    assert_eq!(tasks[0].time_references[0].amount, 2);
}

#[test]
fn amounts_that_do_not_parse_count_as_zero() {
    let tasks = parse_tasks_from_markdown(
        "- [ ] a @before[٣٠m]:x @after[99999999999999999999d]:y @be-fore[1d]:z",
        "tasks.md",
    );
    let refs = &tasks[0].time_references;
    assert_eq!(refs.len(), 2);
    assert_eq!(refs[0].amount, 0);
    assert_eq!(refs[0].target_id, "x");
    assert_eq!(refs[1].amount, 0);
    assert_eq!(refs[1].unit, "d");
    assert_eq!(tasks[0].event_ids, strings(&["x", "y", "be-fore"]));
}

// ---------------------------------------------------------------------------
// Deadlines and resolution
// ---------------------------------------------------------------------------

#[test]
fn offsets_by_unit() {
    assert_eq!(compute_offset(30, "m"), Some(1800));
    assert_eq!(compute_offset(2, "h"), Some(7200));
    assert_eq!(compute_offset(1, "W"), Some(604800));
    assert_eq!(compute_offset(2, "M"), Some(5184000));
    assert_eq!(compute_offset(1, "Y"), Some(31536000));
    assert_eq!(compute_offset(3, "q"), Some(259200));
    assert_eq!(compute_offset(i64::MAX, "m"), None);
}

#[test]
fn iso_datetimes_parse_to_utc_seconds() {
    assert_eq!(parse_iso_datetime("2026-02-20T10:00:00Z"), Some(1771581600));
    assert_eq!(parse_iso_datetime("2026-02-20T11:00:00+01:00"), Some(1771581600));
    assert_eq!(parse_iso_datetime("2026-02-20T10:00:00"), Some(1771581600));
    assert_eq!(parse_iso_datetime("2026-02-20T10:00:00.250"), Some(1771581600));
    assert_eq!(parse_iso_datetime("2026-02-20T10:00"), Some(1771581600));
    assert_eq!(parse_iso_datetime("2026-02-20"), Some(1771545600));
    assert_eq!(parse_iso_datetime("soon"), None);
}

#[test]
fn resolution_names_events_and_projects_and_computes_deadlines() {
    let tasks = parse_tasks_from_markdown(
        "- [ ] Prep @before[30m]:m1 #p1 @m1 @ghost\n- [ ] Wrap @after[1h]:m1\n- [ ] Fixed @2026-03-01T08:00 @before[1d]:m1",
        "tasks.md",
    );
    let event_map = vec![(s("m1"), EventRef { name: s("Standup"), from_: 1771581600, to: 1771585200 })];
    let project_map = vec![(s("p1"), s("Launch"))];
    assert!(tasks.iter().all(|t| task_resolvable(t, &event_map)));
    let r = resolve_tasks(tasks, &event_map, &project_map);
    assert_eq!(r[0].deadline, Some(s("2026-02-20T09:30:00")));
    assert_eq!(r[0].resolved_event_names, vec![(s("m1"), s("Standup"))]);
    assert_eq!(r[0].resolved_project_names, vec![(s("p1"), s("Launch"))]);
    assert_eq!(r[1].deadline, Some(s("2026-02-20T12:00:00")));
    assert_eq!(r[2].deadline, Some(s("2026-03-01T08:00:00")));
}

#[test]
fn resolution_is_idempotent_on_an_example() {
    let tasks = parse_tasks_from_markdown("- [ ] Prep @before[30m]:m1", "tasks.md");
    let event_map = vec![(s("m1"), EventRef { name: s("Standup"), from_: 1771581600, to: 1771585200 })];
    let once = resolve_tasks(tasks, &event_map, &Vec::new());
    let twice = resolve_tasks(once.clone(), &event_map, &Vec::new());
    assert_eq!(once, twice);
}

#[test]
fn unknown_modifier_and_unknown_event_give_no_deadline() {
    let tasks = parse_tasks_from_markdown("- [ ] a @around[3d]:m1 @before[1h]:nope", "tasks.md");
    let event_map = vec![(s("m1"), EventRef { name: s("M"), from_: 0, to: 0 })];
    let r = resolve_tasks(tasks, &event_map, &Vec::new());
    assert_eq!(r[0].deadline, None);
    assert_eq!(r[0].resolved_event_names, vec![(s("m1"), s("M"))]);
}

#[test]
fn sanitized_text_has_no_encoded_space_nor_trailing_blanks() {
    let out = sanitize_content("x&#x20;\r\ny  &amp;#x20;\t\n");
    assert_eq!(out, "x\ny  &amp;#x20;\n");
    assert!(!out.contains("&#x20;"));
    assert!(out.split('\n').all(|l| !l.ends_with(char::is_whitespace)));
    assert_eq!(sanitize_content("a&#x20;"), "a");
}

#[test]
fn index_maps_with_a_repeated_id_are_found() {
    assert!(has_distinct_keys(&vec![(s("a"), 1), (s("b"), 2)]));
    assert!(has_distinct_keys::<u8>(&Vec::new()));
    assert!(!has_distinct_keys(&vec![(s("a"), 1), (s("b"), 2), (s("a"), 3)]));
}

#[test]
fn deadline_out_of_chrono_range_is_not_resolvable() {
    let tasks = parse_tasks_from_markdown("- [ ] a @before[99999999d]:m1", "tasks.md");
    let event_map = vec![(s("m1"), EventRef { name: s("M"), from_: 0, to: 0 })];
    assert!(!task_resolvable(&tasks[0], &event_map));
    assert!(task_resolvable(&tasks[0], &Vec::new()));
}

// ---------------------------------------------------------------------------
// Editing task lines
// ---------------------------------------------------------------------------

#[test]
fn toggle_flips_the_marker() {
    let text = "- [ ] a\n- [x] b\n";
    assert_eq!(toggle_task_in_text(text, 1), Ok(s("- [x] a\n- [x] b\n\n")));
    assert_eq!(toggle_task_in_text(text, 2), Ok(s("- [ ] a\n- [ ] b\n\n")));
    assert_eq!(toggle_task_in_text("  * [X] c", 1), Ok(s("  * [ ] c")));
}

#[test]
fn toggle_twice_restores_the_line() {
    let once = toggle_task_in_text("- [ ] a", 1).unwrap();
    assert_eq!(toggle_task_in_text(&once, 1), Ok(s("- [ ] a")));
}

#[test]
fn toggled_task_reads_back_with_the_other_state() {
    let file = toggle_task_in_text("- [ ] a&#x20;b\n  * [x] c", 1).unwrap();
    assert_eq!(file, "- [x] a b\n  * [x] c");
    let tasks = parse_tasks_from_markdown(&file, "tasks.md");
    assert_eq!(tasks[0].line_number, 1);
    assert!(tasks[0].completed);
    assert_eq!(tasks[0].text, "a b");
    let back = toggle_task_in_text(&file, 2).unwrap();
    let tasks = parse_tasks_from_markdown(&back, "tasks.md");
    assert!(!tasks[1].completed);
    assert_eq!(tasks[1].line_number, 2);
}

#[test]
fn toggle_errors() {
    let text = "- [ ] a\n- [x] b\n";
    assert_eq!(toggle_task_in_text(text, 3), Err(s("Line 3 is not a task")));
    assert_eq!(toggle_task_in_text(text, 4), Err(s("Line 4 out of range")));
    assert_eq!(toggle_task_in_text(text, 0), Err(s("Line 0 out of range")));
    assert_eq!(toggle_task_in_text(text, -5), Err(s("Line -5 out of range")));
    assert_eq!(toggle_task_in_text("- [ ] ", 1), Err(s("Line 1 is not a task")));
}

#[test]
fn delete_removes_the_line() {
    assert_eq!(delete_task_in_text("- [ ] a\nx\n", 1), Ok(s("x\n\n")));
    assert_eq!(delete_task_in_text("x\n- [ ] ", 2), Ok(s("x")));
    assert_eq!(delete_task_in_text("x\n", 1), Err(s("Line 1 is not a task")));
    assert_eq!(delete_task_in_text("x\n", 9), Err(s("Line 9 out of range")));
}

#[test]
fn update_replaces_the_text() {
    assert_eq!(update_task_in_text("  - [x] old\n", 1, "  new  "), Ok(s("  - [x] new\n\n")));
    assert_eq!(update_task_in_text("- [ ] a", 1, "   "), Err(s("Task text must not be empty")));
    assert_eq!(update_task_in_text("- [ ] a", 2, "b"), Err(s("Line 2 out of range")));
    assert_eq!(update_task_in_text("text", 1, "b"), Err(s("Line 1 is not a task")));
}

#[test]
fn updated_task_reads_back_with_the_new_text() {
    let file = update_task_in_text("- [x] old\n", 1, " new&#x20;text ").unwrap();
    assert_eq!(file, "- [x] new text\n\n");
    let tasks = parse_tasks_from_markdown(&file, "tasks.md");
    assert_eq!(tasks[0].text, "new text");
    assert!(tasks[0].completed);
    assert_eq!(tasks[0].line_number, 1);
}

#[test]
fn create_appends_an_open_task() {
    assert_eq!(create_task_in_text("# Tasks", " buy "), Ok(s("# Tasks\n- [ ] buy\n")));
    assert_eq!(create_task_in_text("# Tasks\n", "x"), Ok(s("# Tasks\n- [ ] x\n")));
    assert_eq!(create_task_in_text("", "x"), Ok(s("- [ ] x\n")));
    assert_eq!(create_task_in_text("", " \t"), Err(s("Task text must not be empty")));
}

#[test]
fn created_task_reads_back_as_the_last_task() {
    let file = create_task_in_text("# Tasks\n- [x] done\n", "  buy &#x20;milk  ").unwrap();
    assert_eq!(file, "# Tasks\n- [x] done\n- [ ] buy  milk\n");
    let tasks = parse_tasks_from_markdown(&file, "tasks.md");
    let last = tasks.last().unwrap();
    assert_eq!(last.text, "buy  milk");
    assert!(!last.completed);
    assert_eq!(last.line_number, 3);
    assert_eq!(last.raw_line, "- [ ] buy  milk");
}

#[test]
fn created_blank_task_after_decoding_is_not_a_task_line() {
    let file = create_task_in_text("", "&#x20;").unwrap();
    assert_eq!(file, "- [ ]\n");
    assert!(parse_tasks_from_markdown(&file, "tasks.md").is_empty());
}

#[test]
fn parsed_tasks_can_be_toggled_by_their_line_number() {
    let text = "intro\r\n  - [ ] one\r\n\t* [x] two  \n";
    for t in parse_tasks_from_markdown(text, "tasks.md") {
        assert!(toggle_task_in_text(text, t.line_number).is_ok());
        assert!(delete_task_in_text(text, t.line_number).is_ok());
        assert!(update_task_in_text(text, t.line_number, "new").is_ok());
    }
}

#[test]
fn reload_target_of_a_task_file() {
    assert_eq!(task_reload_target("notes/a.md"), ReloadTarget::Note(s("a.md")));
    assert_eq!(task_reload_target("notes/notes/a.md"), ReloadTarget::Note(s("a.md")));
    assert_eq!(task_reload_target("projects/p.md"), ReloadTarget::Project(s("p.md")));
    assert_eq!(task_reload_target("tasks.md"), ReloadTarget::Tasks);
}

// ---------------------------------------------------------------------------
// Watcher changes
// ---------------------------------------------------------------------------

#[test]
fn changes_are_classified_by_first_component() {
    let plan = classify_changes(&strings(&["events.yaml", "notes/a.md", "tasks.md", "notes/sub/b.md"])).unwrap();
    assert!(plan.events);
    assert!(plan.notes);
    assert_eq!(plan.note_files, strings(&["a.md", "sub/b.md"]));
    assert!(!plan.projects);
    assert!(plan.tasks);
    assert_eq!(plan.affected, strings(&["events", "notes", "tasks"]));

    let plan = classify_changes(&strings(&["projects/p.md", "events.yml"])).unwrap();
    assert!(plan.events);
    assert!(plan.projects);
    assert_eq!(plan.project_files, strings(&["p.md"]));
    assert_eq!(plan.affected, strings(&["events", "projects", "tasks"]));

    let plan = classify_changes(&strings(&["./projects/p.md", "tasks.md"])).unwrap();
    assert!(!plan.projects);
    assert!(plan.tasks);
    assert_eq!(plan.affected, strings(&["tasks"]));
}

#[test]
fn unrelated_changes_do_nothing() {
    assert!(classify_changes(&strings(&["readme.md", "notes", ""])).is_none());
    assert!(classify_changes(&Vec::new()).is_none());
}

// ---------------------------------------------------------------------------
// Notes and projects
// ---------------------------------------------------------------------------

#[test]
fn note_and_project_entities() {
    let n = note_entity(s("a.md"), s("raw"), "# Title\nbody text", strings(&["e1"]), Vec::new());
    assert_eq!(n.title, "Title");
    assert_eq!(n.body_preview, "body text");
    assert_eq!(n.event_ids, strings(&["e1"]));
    let p = project_entity(s("launch.md"), s("raw"), "plan", Vec::new()).unwrap();
    assert_eq!(p.id, "launch");
    assert_eq!(p.title, "plan");
}

#[test]
fn tasks_inherit_front_matter_ids() {
    let mut t = plain_task(1);
    t.event_ids = strings(&["e1"]);
    let r = inherit_note_ids(vec![t.clone()], &strings(&["e1", "e2"]), &strings(&["p1"]));
    assert_eq!(r[0].event_ids, strings(&["e1", "e2"]));
    assert_eq!(r[0].project_ids, strings(&["p1"]));
    let r = inherit_project_ids(vec![t], &strings(&["e3"]), &s("launch"));
    assert_eq!(r[0].event_ids, strings(&["e1", "e3"]));
    assert_eq!(r[0].project_ids, strings(&["launch"]));
}

#[test]
fn merging_ids_twice_changes_nothing() {
    let mut ids = strings(&["a", "b"]);
    merge_ids(&mut ids, &strings(&["b", "c", "c"]));
    assert_eq!(ids, strings(&["a", "b", "c"]));
    let before = ids.clone();
    merge_ids(&mut ids, &strings(&["b", "c", "c"]));
    assert_eq!(ids, before);
}

// ---------------------------------------------------------------------------
// Rendering
// ---------------------------------------------------------------------------

#[test]
fn references_are_wrapped_in_spans() {
    assert_eq!(
        replace_gera_refs("see @ev1 and #proj"),
        "see <span class=\"gera-ref gera-ref--event\" data-event=\"ev1\">@ev1</span> and <span class=\"gera-ref gera-ref--project\" data-project=\"proj\">#proj</span>"
    );
    assert_eq!(
        replace_gera_refs("@before[30m]:ev-1."),
        "<span class=\"gera-ref gera-ref--before\" data-offset=\"30m\" data-target=\"ev-1.\">@before[30m]:ev-1.</span>"
    );
    assert_eq!(
        replace_gera_refs("@2026-3-3T18:00"),
        "<span class=\"gera-ref gera-ref--datetime\" data-datetime=\"2026-3-3T18:00\">@2026-3-3T18:00</span>"
    );
    assert_eq!(replace_gera_refs("a@ b# 1@2"), "a@ b# 1@2");
    assert_eq!(replace_gera_refs("no refs here"), "no refs here");
}

#[test]
fn markdown_is_rendered_with_references() {
    assert_eq!(
        render_body("# Hi @ev1"),
        "<h1>Hi <span class=\"gera-ref gera-ref--event\" data-event=\"ev1\">@ev1</span></h1>\n"
    );
    let doc = render("# Plan\n\n- [x] done\n");
    assert_eq!(doc.title, "Plan");
    assert!(doc.html.contains("<h1>Plan</h1>"));
    assert!(doc.html.contains("checked"));
    assert!(doc.frontmatter.is_empty());
    assert!(doc.event_ids.is_empty());
}

#[test]
fn rendered_document_reads_its_front_matter() {
    let doc = render("---\ntitle: x\nevent_ids:\n- e1\n- 3\nproject_ids: [p1]\n---\n# Doc\nSee @e1\n");
    assert_eq!(doc.title, "Doc");
    assert_eq!(doc.event_ids, strings(&["e1"]));
    assert_eq!(doc.project_ids, strings(&["p1"]));
    assert_eq!(doc.frontmatter.len(), 3);
    assert_eq!(doc.frontmatter[0], (s("title"), YamlValue::Str(s("x"))));
    assert!(doc.html.contains("data-event=\"e1\""));
}

#[test]
fn front_matter_is_parsed_into_entries() {
    let (fm, body) = parse_frontmatter("---\nevent_ids:\n- e1\n- 3\ntitle: x\n---\nbody");
    assert_eq!(
        fm,
        vec![
            (s("event_ids"), YamlValue::List(vec![YamlValue::Str(s("e1")), YamlValue::Number(s("3"))])),
            (s("title"), YamlValue::Str(s("x"))),
        ]
    );
    assert_eq!(body, "body");
    assert_eq!(frontmatter_event_ids(&fm), strings(&["e1"]));
    assert!(frontmatter_project_ids(&fm).is_empty());
}

#[test]
fn crlf_front_matter_is_split_like_lf_front_matter() {
    let (fm, body) = parse_frontmatter("---\r\ntitle: x\r\n---\r\nbody");
    assert_eq!(fm, vec![(s("title"), YamlValue::Str(s("x")))]);
    assert_eq!(body, "body");
    let (fm, body) = parse_frontmatter("---\r\na: 1\r\nb: 2\r\nc: é\r\n---\r\nbody");
    assert_eq!(
        fm,
        vec![
            (s("a"), YamlValue::Number(s("1"))),
            (s("b"), YamlValue::Number(s("2"))),
            (s("c"), YamlValue::Str(s("é"))),
        ]
    );
    assert_eq!(body, "body");
}

#[test]
fn front_matter_that_is_not_a_mapping_is_body() {
    let text = "---\n- a\n- b\n---\nbody";
    let (fm, body) = parse_frontmatter(text);
    assert!(fm.is_empty());
    assert_eq!(body, text);
    let (fm, body) = parse_frontmatter("---\na: [unclosed\n---\nbody");
    assert!(fm.is_empty());
    assert_eq!(body, "---\na: [unclosed\n---\nbody");
    let (fm, body) = parse_frontmatter("no front matter");
    assert!(fm.is_empty());
    assert_eq!(body, "no front matter");
}

#[test]
fn front_matter_keeps_only_string_keys() {
    let (fm, _) = parse_frontmatter("---\n1: one\nkey: true\nn: ~\n---\n");
    assert_eq!(fm, vec![(s("key"), YamlValue::Bool(true)), (s("n"), YamlValue::Null)]);
}

// ---------------------------------------------------------------------------
// Events and calendar synchronisation
// ---------------------------------------------------------------------------

#[test]
fn events_from_stored_fields() {
    let f = EventFields {
        id: Some(s("e1")),
        source: None,
        from: Some(s("2026-02-20T10:00")),
        to: Some(s("2026-02-20T11:00")),
        name: Some(s("Meet")),
        description: None,
        participants: Some(vec![Some(s("ann")), None]),
        location: Some(s("Room")),
        metadata: None,
    };
    let e = event_from_fields(f.clone()).unwrap();
    assert_eq!(e.source, "local");
    assert_eq!(e.description, "");
    assert_eq!(e.participants, strings(&["ann"]));
    assert_eq!(e.location, "Room");
    assert_eq!(e.metadata, default_metadata());
    let mut missing = f;
    missing.name = None;
    assert!(event_from_fields(missing).is_none());
}

#[test]
fn events_from_commands() {
    let e = new_event(s("e1"), None, s("a"), s("b"), s("N"), None, Some(s("L")), None, None);
    assert_eq!(e.source, "local");
    assert_eq!(e.location, "L");
    assert!(e.participants.is_empty());
    let u = updated_event(e.clone(), s("N2"), s("c"), s("d"), Some(s("D")), None, Some(strings(&["p"])));
    assert_eq!(u.id, "e1");
    assert_eq!(u.name, "N2");
    assert_eq!(u.description, "D");
    assert_eq!(u.location, "");
    assert_eq!(u.participants, strings(&["p"]));
    assert_eq!(u.metadata, e.metadata);
    let ids = vec![Some(s("x")), None, Some(s("e1"))];
    assert_eq!(event_index(&ids, "e1"), Some(2));
    assert_eq!(event_index(&ids, "zz"), None);
}

#[test]
fn event_list_edits_by_id() {
    let ids = vec![Some(s("a")), None, Some(s("b")), Some(s("a"))];
    assert_eq!(check_new_event_id(&ids, "c"), Ok(()));
    assert_eq!(check_new_event_id(&ids, "a"), Err(s("Event already exists: a")));
    assert_eq!(event_position(&ids, "a"), Ok(0));
    assert_eq!(event_position(&ids, "b"), Ok(2));
    assert_eq!(event_position(&ids, "z"), Err(s("Event not found: z")));
    assert_eq!(positions_after_delete(&ids, "a"), Ok(vec![1, 2]));
    assert_eq!(positions_after_delete(&ids, "z"), Err(s("Event not found: z")));
}

#[test]
fn google_times_are_printed_in_utc() {
    assert_eq!(parse_gcal_datetime(Some("2026-03-01T10:00:00+01:00")), Some(s("2026-03-01T09:00:00")));
    assert_eq!(parse_gcal_datetime(Some("2026-03-01")), Some(s("2026-03-01T00:00:00")));
    assert_eq!(parse_gcal_datetime(Some("")), None);
    assert_eq!(parse_gcal_datetime(Some("garbage")), None);
    assert_eq!(parse_gcal_datetime(None), None);
}

#[test]
fn google_event_becomes_a_vault_event() {
    let g = GCalEventFields {
        start: Some(s("2026-03-01T10:00:00Z")),
        end: Some(s("2026-03-01")),
        id: Some(s("g1")),
        attendees: Some(vec![Some(s("a@x")), None]),
        etag: Some(s("\"7\"")),
        recurring_event_id: None,
        updated: Some(s("bad")),
        summary: None,
        description: Some(s("d")),
        location: None,
    };
    let e = google_event_to_entity(&g, "me@x", "primary", "2026-03-02T00:00:00").unwrap();
    assert_eq!(e.id, "g1");
    assert_eq!(e.source, "google_calendar");
    assert_eq!(e.from_, "2026-03-01T10:00:00");
    assert_eq!(e.to, "2026-03-01T00:00:00");
    assert_eq!(e.name, "(No title)");
    assert_eq!(e.participants, strings(&["a@x"]));
    assert_eq!(e.metadata.source_account, "me@x");
    assert_eq!(e.metadata.source_calendar_id, "primary");
    assert_eq!(e.metadata.etag, "\"7\"");
    assert_eq!(e.metadata.last_synced_at, Some(s("2026-03-02T00:00:00")));
    assert_eq!(e.metadata.source_updated_at, None);
    let mut no_id = g;
    no_id.id = None;
    assert!(google_event_to_entity(&no_id, "me@x", "primary", "now").is_none());
}

#[test]
fn sync_plan_creates_updates_skips_and_counts_stale() {
    let fetched = vec![
        event("g1", gcal_meta("me", "cal", "g1", "a")),
        event("g2", gcal_meta("me", "cal", "g2", "b")),
        event("g3", gcal_meta("me", "cal", "g3", "c")),
    ];
    let mut local = event("loc", gcal_meta("me", "cal", "g3", "c"));
    local.metadata.source_platform = s("local");
    let existing = vec![
        event("x1", gcal_meta("me", "cal", "g1", "a")),
        event("x2", gcal_meta("me", "cal", "g2", "old")),
        local,
        event("x4", gcal_meta("me", "cal", "g4", "d")),
        event("x5", gcal_meta("other", "cal", "g2", "b")),
    ];
    let plan = plan_sync(&fetched, &existing, "me", "cal");
    assert_eq!(plan.steps, vec![SyncStep::Skip(0), SyncStep::Update(1, 1), SyncStep::Create(2)]);
    assert_eq!(plan.result.created, 1);
    assert_eq!(plan.result.updated, 1);
    assert_eq!(plan.result.skipped, 1);
    assert_eq!(plan.result.stale, 1);
    assert_eq!(
        plan.result.created + plan.result.updated + plan.result.skipped,
        fetched.len() as i64
    );
}

#[test]
fn sync_matches_each_existing_event_once() {
    let fetched = vec![
        event("a", gcal_meta("me", "cal", "g1", "a")),
        event("b", gcal_meta("me", "cal", "g1", "a")),
    ];
    let existing = vec![event("x1", gcal_meta("me", "cal", "g1", "a"))];
    let plan = plan_sync(&fetched, &existing, "me", "cal");
    assert_eq!(plan.steps, vec![SyncStep::Skip(0), SyncStep::Create(1)]);
    assert_eq!(plan.result.stale, 0);
}

#[test]
fn events_file_is_read_into_entries_and_fields() {
    let text = "events:\n- id: e1\n  from: 2026-02-20T10:00:00\n  to: 2026\n  name: Standup\n  participants: [a, 3, b]\n  location: Room\n  metadata:\n    etag: x\n- id: e2\n  name: No times\n- id: e3\n  from: true\n  to: 5\n  name: Odd\n";
    let entries = event_entries(text);
    assert_eq!(entries.len(), 3);
    assert!(metadata_value(&entries[0]).is_some());
    assert!(metadata_value(&entries[1]).is_none());
    let f = event_fields_of(&entries[0], None);
    assert_eq!(f.id, Some(s("e1")));
    assert_eq!(f.source, None);
    assert_eq!(f.from, Some(s("2026-02-20T10:00:00")));
    assert_eq!(f.to, Some(s("2026")));
    assert_eq!(f.participants, Some(vec![Some(s("a")), None, Some(s("b"))]));
    assert_eq!(f.location, Some(s("Room")));
    let e = event_from_fields(f).unwrap();
    assert_eq!(e.source, "local");
    assert_eq!(e.participants, strings(&["a", "b"]));
    assert!(event_from_fields(event_fields_of(&entries[1], None)).is_none());
    let odd = event_fields_of(&entries[2], None);
    assert_eq!(odd.from, Some(s("true")));
    assert_eq!(odd.to, Some(s("5")));
}

#[test]
fn events_file_without_an_events_list_has_no_entries() {
    assert!(event_entries("").is_empty());
    assert!(event_entries("events: 3\n").is_empty());
    assert!(event_entries("other: []\n").is_empty());
    assert!(event_entries("events: [unclosed\n").is_empty());
}

#[test]
fn recent_vaults_are_read_from_json() {
    assert_eq!(recent_vaults_of("{\"recent\": [\"/a\", 3, \"/b\"]}"), strings(&["/a", "/b"]));
    assert!(recent_vaults_of("not json").is_empty());
    assert!(recent_vaults_of("{\"recent\": \"/a\"}").is_empty());
    let many: Vec<String> = (0..12).map(|i| format!("\"/v{}\"", i)).collect();
    let text = format!("{{\"recent\": [{}]}}", many.join(","));
    let r = recent_vaults_of(&text);
    assert_eq!(r.len(), 10);
    assert_eq!(r[9], "/v9");
}

#[test]
fn watcher_reports_a_batch_after_a_quiet_spell() {
    let mut st = Debounce { pending: vec![], last_event_ms: None };
    assert_eq!(debounce_step(&mut st, Some(strings(&["/v/notes/a.md", "/v/x.txt"])), 1000, "/v"), None);
    assert_eq!(st.pending, strings(&["/v/notes/a.md"]));
    assert_eq!(st.last_event_ms, Some(1000));
    assert_eq!(debounce_step(&mut st, None, 1200, "/v"), None);
    assert_eq!(debounce_step(&mut st, Some(strings(&["/v/tasks.md", "/v/notes/a.md"])), 1250, "/v"), None);
    assert_eq!(debounce_step(&mut st, None, 1549, "/v"), None);
    assert_eq!(debounce_step(&mut st, None, 1550, "/v"), Some(strings(&["notes/a.md", "tasks.md"])));
    assert!(st.pending.is_empty());
    assert_eq!(st.last_event_ms, None);
    assert_eq!(debounce_step(&mut st, Some(strings(&["/w/a.md"])), 2000, "/v"), None);
    assert_eq!(debounce_step(&mut st, None, 2300, "/v"), None);
    assert!(st.pending.is_empty());
    assert_eq!(debounce_step(&mut st, Some(strings(&["/v/a.txt"])), 2400, "/v"), None);
    assert_eq!(st.last_event_ms, None);
}

#[test]
fn tasks_are_resolved_again_unless_only_events_changed_just_now() {
    let events_only = classify_changes(&strings(&["events.yaml"])).unwrap();
    assert!(should_resolve(&events_only, None));
    assert!(!should_resolve(&events_only, Some(599)));
    assert!(should_resolve(&events_only, Some(600)));
    let note = classify_changes(&strings(&["notes/a.md"])).unwrap();
    assert!(should_resolve(&note, Some(10)));
    let tasks = classify_changes(&strings(&["tasks.md"])).unwrap();
    assert!(should_resolve(&tasks, Some(10)));
}

#[test]
fn page_queries_name_their_filters_order_and_page() {
    let q = events_page_query(50, 0, Some("2026-01-01"), None);
    assert_eq!(q.sql, "SELECT * FROM events WHERE to_ >= ? ORDER BY from_ ASC, to_ ASC, id ASC LIMIT 51 OFFSET 0");
    assert_eq!(q.binds, strings(&["2026-01-01"]));
    let q = projects_page_query(10, 20);
    assert_eq!(q.sql, "SELECT * FROM projects  ORDER BY id ASC LIMIT 11 OFFSET 20");
    assert!(q.binds.is_empty());
    let q = notes_page_query(5, 5, Some("e1"), Some("p1"));
    assert_eq!(
        q.sql,
        "SELECT * FROM notes WHERE instr(event_ids, ?) > 0 AND instr(project_ids, ?) > 0 ORDER BY filename ASC LIMIT 6 OFFSET 5"
    );
    assert_eq!(q.binds, strings(&["\"e1\"", "\"p1\""]));
    let q = tasks_page_query(500, 7, None, Some("2026-03-01T00:00:00"), None, Some("p"));
    assert_eq!(
        q.sql,
        "SELECT * FROM tasks WHERE deadline IS NOT NULL AND deadline <= ? AND instr(project_ids, ?) > 0 ORDER BY source_file ASC, line_number ASC, rowid ASC LIMIT 501 OFFSET 7"
    );
    assert_eq!(q.binds, strings(&["2026-03-01T00:00:00", "\"p\""]));
    assert_eq!(like_pattern("plan"), "%plan%");
}

#[test]
fn toggling_twice_gives_back_the_sanitised_file() {
    let text = "# Plan\n- [ ] call&#x20;Bob  \r\n* [x] done\nend";
    let once = toggle_task_in_text(text, 2).unwrap();
    assert_eq!(once, "# Plan\n- [x] call Bob\n* [x] done\nend");
    let twice = toggle_task_in_text(&once, 2).unwrap();
    assert_eq!(twice, sanitize_content(text));
    let once = toggle_task_in_text(text, 3).unwrap();
    assert_eq!(toggle_task_in_text(&once, 3).unwrap(), sanitize_content(text));
}

#[test]
fn toggling_a_file_with_a_final_line_break_adds_one_each_time() {
    let once = toggle_task_in_text("- [ ] a\n", 1).unwrap();
    assert_eq!(once, "- [x] a\n\n");
    assert_eq!(toggle_task_in_text(&once, 1).unwrap(), "- [ ] a\n\n\n");
}

#[test]
fn an_event_written_as_an_entry_reads_back() {
    let e = EventEntity {
        id: s("ev1"),
        source: s("google_calendar"),
        from_: s("2026-02-20T10:00:00"),
        to: s("2026-02-20T11:00:00"),
        name: s("Standup"),
        description: s("daily"),
        participants: strings(&["a@x", "b@x"]),
        location: s("Room"),
        metadata: default_metadata(),
    };
    let v = event_to_yaml(&e, YamlValue::Mapping(Vec::new()));
    let f = event_fields_of(&v, Some(default_metadata()));
    assert_eq!(event_from_fields(f), Some(e.clone()));
    match &v {
        YamlValue::Mapping(m) => {
            let keys: Vec<&YamlValue> = m.iter().map(|(k, _)| k).collect();
            assert_eq!(keys[2], &YamlValue::Str(s("from")));
            assert_eq!(m.len(), 9);
        }
        _ => panic!("an entry is a mapping"),
    }
}

fn sample_event(id: &str) -> EventEntity {
    EventEntity {
        id: s(id),
        source: s("local"),
        from_: s("2026-02-20T10:00:00"),
        to: s("2026-02-20T11:00:00"),
        name: s("Standup"),
        description: s(""),
        participants: vec![],
        location: s(""),
        metadata: default_metadata(),
    }
}

#[test]
fn events_file_gets_a_new_entry_at_the_end() {
    let text = "events:\n- id: a\n  from: x\n  to: y\n  name: A\n";
    let out = gera::event_file::create_event_in_text(text, &sample_event("b"), YamlValue::Mapping(vec![])).unwrap();
    let entries = event_entries(&out);
    assert_eq!(entries.len(), 2);
    assert_eq!(event_from_fields(event_fields_of(&entries[1], Some(default_metadata()))), Some(sample_event("b")));
    assert_eq!(
        gera::event_file::create_event_in_text(text, &sample_event("a"), YamlValue::Mapping(vec![])),
        Err(s("Event already exists: a"))
    );
    assert_eq!(
        gera::event_file::create_event_in_text("events: 3\n", &sample_event("a"), YamlValue::Null),
        Err(s("events.yaml malformed"))
    );
    let fresh = gera::event_file::create_event_in_text("- not a mapping\n", &sample_event("c"), YamlValue::Null).unwrap();
    assert_eq!(event_entries(&fresh).len(), 1);
    let no_list = gera::event_file::create_event_in_text("other: 1\n", &sample_event("c"), YamlValue::Null).unwrap();
    assert_eq!(event_entries(&no_list).len(), 1);
    assert!(no_list.starts_with("other: 1\n"));
}

#[test]
fn events_file_entries_are_replaced_and_removed_by_id() {
    let text = "events:\n- id: a\n  from: x\n  to: y\n  name: A\n- id: b\n  name: B\n";
    let mut e = sample_event("a");
    e.name = s("Renamed");
    let out = gera::event_file::update_event_in_text(text, &e, YamlValue::Mapping(vec![])).unwrap().unwrap();
    let entries = event_entries(&out);
    assert_eq!(entries.len(), 2);
    assert_eq!(event_fields_of(&entries[0], None).name, Some(s("Renamed")));
    assert_eq!(
        gera::event_file::update_event_in_text(text, &sample_event("z"), YamlValue::Null),
        Some(Err(s("Event not found: z")))
    );
    assert_eq!(gera::event_file::update_event_in_text("- a\n", &e, YamlValue::Null), None);
    assert!(matches!(gera::event_file::update_event_in_text("events: [", &e, YamlValue::Null), Some(Err(_))));
    let out = gera::event_file::delete_event_in_text(text, "a").unwrap().unwrap();
    let entries = event_entries(&out);
    assert_eq!(entries.len(), 1);
    assert_eq!(event_fields_of(&entries[0], None).id, Some(s("b")));
    assert_eq!(gera::event_file::delete_event_in_text(text, "q"), Some(Err(s("Event not found: q"))));
    assert_eq!(gera::event_file::delete_event_in_text("other: 1\n", "a"), Some(Err(s("events.yaml malformed"))));
    assert_eq!(gera::event_file::delete_event_in_text("7\n", "a"), None);
}

#[test]
fn front_matter_is_serialised_above_the_body() {
    let fm = vec![(s("event_ids"), YamlValue::List(vec![YamlValue::Str(s("e1"))]))];
    let out = gera::storage::serialize_frontmatter(fm, "\n# Title\ntext");
    assert_eq!(out, "---\nevent_ids:\n- e1\n---\n\n# Title\ntext");
    let (back, body) = parse_frontmatter(&out);
    assert_eq!(back, vec![(s("event_ids"), YamlValue::List(vec![YamlValue::Str(s("e1"))]))]);
    assert_eq!(body, "\n# Title\ntext");
    assert_eq!(gera::storage::serialize_frontmatter(vec![], "just body"), "just body");
}

#[test]
fn yaml_tags_are_never_empty() {
    assert!(gera::yaml::YamlTag::new(s("")).is_none());
    assert_eq!(gera::yaml::YamlTag::new(s("!date")).unwrap().as_str(), "!date");
}

fn index_with_tasks() -> rusqlite::Connection {
    let c = rusqlite::Connection::open_in_memory().unwrap();
    c.execute_batch(
        "CREATE TABLE tasks (rowid INTEGER PRIMARY KEY AUTOINCREMENT, text TEXT NOT NULL, completed INTEGER NOT NULL DEFAULT 0, raw_line TEXT NOT NULL, source_file TEXT NOT NULL, line_number INTEGER NOT NULL, deadline TEXT, event_ids TEXT NOT NULL DEFAULT '[]', project_ids TEXT NOT NULL DEFAULT '[]', time_references TEXT NOT NULL DEFAULT '[]', resolved_event_names TEXT NOT NULL DEFAULT '{}', resolved_project_names TEXT NOT NULL DEFAULT '{}');
         INSERT INTO tasks (text, completed, raw_line, source_file, line_number, deadline, event_ids, project_ids, time_references, resolved_event_names)
           VALUES ('b', 0, '- [ ] b', 'tasks.md', 2, '2026-03-01T00:00:00', '[\"e1\"]', '[]', '[{\"modifier\":\"before\",\"amount\":30,\"unit\":\"m\",\"target_id\":\"e1\"}]', '[[\"e1\",\"Standup\"]]');
         INSERT INTO tasks (text, completed, raw_line, source_file, line_number, deadline, event_ids)
           VALUES ('a', 1, '- [x] a', 'notes/n.md', 5, NULL, '[\"e1\",\"e2\"]');
         INSERT INTO tasks (text, completed, raw_line, source_file, line_number, deadline)
           VALUES ('c', 0, '- [ ] c', 'tasks.md', 1, '2026-01-01T00:00:00');",
    )
    .unwrap();
    c
}

#[test]
fn tasks_page_is_ordered_filtered_and_cut() {
    let c = index_with_tasks();
    let (all, next) = gera::index::list_tasks_page(&c, None, None, None, None, None, None).unwrap();
    assert_eq!(all.iter().map(|t| t.text.as_str()).collect::<Vec<_>>(), vec!["a", "c", "b"]);
    assert_eq!(next, None);
    assert!(all[0].completed);
    assert_eq!(all[2].time_references.len(), 1);
    assert_eq!(all[2].time_references[0].amount, 30);
    assert_eq!(all[2].resolved_event_names, vec![(s("e1"), s("Standup"))]);
    assert!(all[0].resolved_event_names.is_empty());
    let (p, next) = gera::index::list_tasks_page(&c, Some(1), None, None, None, Some("e1"), None).unwrap();
    assert_eq!(p[0].text, "a");
    assert_eq!(next, Some(s("1")));
    let (p, next) = gera::index::list_tasks_page(&c, Some(1), Some("1"), None, None, Some("e1"), None).unwrap();
    assert_eq!(p[0].text, "b");
    assert_eq!(next, None);
    let (p, _) = gera::index::list_tasks_page(&c, None, Some("junk"), Some("2026-02-01"), None, None, None).unwrap();
    assert_eq!(p.iter().map(|t| t.text.as_str()).collect::<Vec<_>>(), vec!["b"]);
    let (p, _) = gera::index::list_tasks_page(&c, None, None, None, Some("2026-02-01"), None, None).unwrap();
    assert_eq!(p.iter().map(|t| t.text.as_str()).collect::<Vec<_>>(), vec!["c"]);
}

#[test]
fn events_page_is_ordered_filtered_and_read_back() {
    let c = rusqlite::Connection::open_in_memory().unwrap();
    c.execute_batch(
        "CREATE TABLE events (id TEXT PRIMARY KEY, source TEXT NOT NULL DEFAULT 'local', from_ TEXT NOT NULL, to_ TEXT NOT NULL, name TEXT NOT NULL, description TEXT NOT NULL DEFAULT '', participants TEXT NOT NULL DEFAULT '[]', location TEXT NOT NULL DEFAULT '', metadata TEXT NOT NULL DEFAULT '{}');
         INSERT INTO events (id, from_, to_, name, participants, metadata) VALUES ('late', '2026-03-01', '2026-03-02', 'L', '[\"a@x\"]', '{\"source_platform\":\"google_calendar\",\"etag\":\"t\",\"last_synced_at\":null}');
         INSERT INTO events (id, from_, to_, name) VALUES ('early', '2026-01-01', '2026-01-02', 'E');",
    )
    .unwrap();
    let (all, next) = gera::index::list_events_page(&c, None, None, None, None).unwrap();
    assert_eq!(all.iter().map(|e| e.id.as_str()).collect::<Vec<_>>(), vec!["early", "late"]);
    assert_eq!(next, None);
    assert_eq!(all[1].participants, strings(&["a@x"]));
    assert_eq!(all[1].metadata.source_platform, "google_calendar");
    assert_eq!(all[1].metadata.etag, "t");
    assert_eq!(all[1].metadata.last_synced_at, None);
    assert_eq!(all[0].metadata.source_platform, "local");
    let (p, _) = gera::index::list_events_page(&c, None, None, Some("2026-02-01"), None).unwrap();
    assert_eq!(p.iter().map(|e| e.id.as_str()).collect::<Vec<_>>(), vec!["late"]);
    let (p, _) = gera::index::list_events_page(&c, None, None, None, Some("2026-02-01")).unwrap();
    assert_eq!(p.iter().map(|e| e.id.as_str()).collect::<Vec<_>>(), vec!["early"]);
}

#[test]
fn google_event_fields_are_read_from_json() {
    let obj = |xs: Vec<(&str, JsonValue)>| JsonValue::Object(xs.into_iter().map(|(k, v)| (s(k), v)).collect());
    let raw = obj(vec![
        ("id", JsonValue::Str(s("g1"))),
        ("start", obj(vec![("date", JsonValue::Str(s("2026-02-20")))])),
        ("end", obj(vec![("dateTime", JsonValue::Str(s("2026-02-20T11:00:00Z"))), ("date", JsonValue::Str(s("x")))])),
        ("attendees", JsonValue::Array(vec![obj(vec![("email", JsonValue::Str(s("a@x")))]), obj(vec![])])),
        ("summary", JsonValue::Number(s("3"))),
    ]);
    let f = gera::gcal::gcal_fields(&raw);
    assert_eq!(f.id, Some(s("g1")));
    assert_eq!(f.start, Some(s("2026-02-20")));
    assert_eq!(f.end, Some(s("2026-02-20T11:00:00Z")));
    assert_eq!(f.attendees, Some(vec![Some(s("a@x")), None]));
    assert_eq!(f.summary, None);
    assert_eq!(f.etag, None);
}

#[test]
fn notes_and_projects_pages_come_in_name_order() {
    let c = rusqlite::Connection::open_in_memory().unwrap();
    c.execute_batch(
        "CREATE TABLE notes (filename TEXT PRIMARY KEY, title TEXT NOT NULL, body_preview TEXT NOT NULL DEFAULT '', event_ids TEXT NOT NULL DEFAULT '[]', project_ids TEXT NOT NULL DEFAULT '[]', raw_content TEXT NOT NULL DEFAULT '');
         CREATE TABLE projects (id TEXT PRIMARY KEY, filename TEXT NOT NULL, title TEXT NOT NULL, body_preview TEXT NOT NULL DEFAULT '', event_ids TEXT NOT NULL DEFAULT '[]', raw_content TEXT NOT NULL DEFAULT '');
         INSERT INTO notes (filename, title, event_ids, project_ids) VALUES ('b.md', 'B', '[\"e1\"]', '[\"p1\"]');
         INSERT INTO notes (filename, title) VALUES ('a.md', 'A');
         INSERT INTO projects (id, filename, title, event_ids) VALUES ('zeta', 'zeta.md', 'Z', '[\"e1\"]');
         INSERT INTO projects (id, filename, title) VALUES ('alpha', 'alpha.md', 'A');",
    )
    .unwrap();
    let (notes, next) = gera::index::list_notes_page(&c, None, None, None, None).unwrap();
    assert_eq!(notes.iter().map(|n| n.filename.as_str()).collect::<Vec<_>>(), vec!["a.md", "b.md"]);
    assert_eq!(next, None);
    let (notes, _) = gera::index::list_notes_page(&c, None, None, Some("e1"), Some("p1")).unwrap();
    assert_eq!(notes.len(), 1);
    assert_eq!(notes[0].event_ids, strings(&["e1"]));
    let (projects, next) = gera::index::list_projects_page(&c, Some(1), None).unwrap();
    assert_eq!(projects[0].id, "alpha");
    assert_eq!(next, Some(s("1")));
    let (projects, next) = gera::index::list_projects_page(&c, Some(1), Some("1")).unwrap();
    assert_eq!(projects[0].event_ids, strings(&["e1"]));
    assert_eq!(next, None);
}
