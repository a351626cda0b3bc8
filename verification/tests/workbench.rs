use std::path::PathBuf;
use tachyon::search::{SearchBatch, SearchHit, SearchStage};
use tachyon::types::{ByteOffset, ByteRange, LineNumber, SearchMode};
use tachyon::workbench::{
    plan_search_request, remember_session, service_palette_slot, session_name, SavedSession,
    SearchEvent, SearchKey, SearchProgress, SearchRequest, SearchTally, WorkbenchCommand,
    SAVED_SESSIONS_LIMIT, SERVICE_PALETTE_LEN,
};

fn hit(line: u64, start: u64, end: u64) -> SearchHit {
    SearchHit {
        line: LineNumber(line),
        byte_range: ByteRange { start: ByteOffset(start), end: ByteOffset(end) },
    }
}

fn session(name: &str, top_line: u64) -> SavedSession {
    SavedSession {
        name: name.to_owned(),
        log_path: PathBuf::from(format!("{name}.log")),
        trace_path: None,
        search: String::new(),
        regex: false,
        case_insensitive: false,
        top_line,
    }
}

#[test]
fn command_words_are_recognised() {
    assert_eq!(WorkbenchCommand::parse("open"), WorkbenchCommand::PickLogFile);
    assert_eq!(WorkbenchCommand::parse("  OpEn \n"), WorkbenchCommand::PickLogFile);
    assert_eq!(
        WorkbenchCommand::parse("open   /var/log/app.log  "),
        WorkbenchCommand::OpenLog("/var/log/app.log".to_owned())
    );
    assert_eq!(
        WorkbenchCommand::parse("search  level=ERROR req "),
        WorkbenchCommand::Search("level=ERROR req".to_owned())
    );
    assert_eq!(WorkbenchCommand::parse("jump 1200"), WorkbenchCommand::Jump("1200".to_owned()));
    assert_eq!(
        WorkbenchCommand::parse("trace spans.jsonl"),
        WorkbenchCommand::OpenTrace("spans.jsonl".to_owned())
    );
    assert_eq!(WorkbenchCommand::parse("Save SESSION"), WorkbenchCommand::SaveSession);
    assert_eq!(WorkbenchCommand::parse("   "), WorkbenchCommand::Nothing);
}

#[test]
fn command_words_other_than_open_are_case_sensitive() {
    assert_eq!(WorkbenchCommand::parse("OPEN x"), WorkbenchCommand::Unknown("OPEN x".to_owned()));
    assert_eq!(WorkbenchCommand::parse("Search x"), WorkbenchCommand::Unknown("Search x".to_owned()));
    assert_eq!(WorkbenchCommand::parse("search"), WorkbenchCommand::Unknown("search".to_owned()));
    assert_eq!(WorkbenchCommand::parse("opened"), WorkbenchCommand::Unknown("opened".to_owned()));
    assert_eq!(WorkbenchCommand::parse("jump "), WorkbenchCommand::Unknown("jump".to_owned()));
}

#[test]
fn tally_files_hits_under_their_lines() {
    let mut tally = SearchTally::new();
    let progress = tally.record(SearchEvent::Batch(SearchBatch {
        stage: SearchStage::Visible,
        line_range: LineNumber(3)..LineNumber(5),
        hits: vec![hit(3, 30, 32), hit(4, 41, 43), hit(3, 35, 37)],
    }));
    assert_eq!(progress, SearchProgress::Running);
    let progress = tally.record(SearchEvent::Batch(SearchBatch {
        stage: SearchStage::Background,
        line_range: LineNumber(0)..LineNumber(2),
        hits: vec![hit(1, 5, 7)],
    }));
    assert_eq!(progress, SearchProgress::Running);
    assert_eq!(tally.batches, 2);
    assert_eq!(tally.visible_hits, 3);
    assert_eq!(tally.background_hits, 1);
    assert_eq!(tally.hits_by_line.get(&3), Some(&vec![hit(3, 30, 32), hit(3, 35, 37)]));
    assert_eq!(tally.hits_by_line.get(&4), Some(&vec![hit(4, 41, 43)]));
    assert_eq!(tally.hits_by_line.get(&1), Some(&vec![hit(1, 5, 7)]));
    assert_eq!(tally.hits_by_line.len(), 3);
}

#[test]
fn tally_reports_the_end_of_a_search() {
    let mut tally = SearchTally::new();
    assert_eq!(tally.record(SearchEvent::Done(4)), SearchProgress::Finished(4));
    assert_eq!(
        tally.record(SearchEvent::Error("invalid query: x".to_owned())),
        SearchProgress::Failed("invalid query: x".to_owned())
    );
    assert_eq!(tally.batches, 0);
    assert!(tally.hits_by_line.is_empty());
}

#[test]
fn blank_search_box_clears_the_search() {
    let request = plan_search_request("  \t", false, false, 10, &None, LineNumber(0)..LineNumber(5));
    assert!(matches!(request, SearchRequest::Clear));
}

#[test]
fn new_search_text_starts_a_search() {
    let visible = LineNumber(10)..LineNumber(52);
    match plan_search_request(" timeout ", false, true, 5000, &None, visible.clone()) {
        SearchRequest::Start { key, query, config } => {
            assert_eq!(
                key,
                SearchKey {
                    query: "timeout".to_owned(),
                    regex: false,
                    case_insensitive: true,
                    max_hits: 5000
                }
            );
            assert_eq!(query.pattern, "timeout");
            assert_eq!(query.mode, SearchMode::Substring { case_sensitive: false });
            assert_eq!(config.visible_lines, visible);
            assert_eq!(config.chunk_lines, 8192);
            assert_eq!(config.max_hits, 5000);
            assert_eq!(config.batch_hit_target, 256);
        }
        _ => panic!("expected a new search"),
    }
    match plan_search_request("a+", true, false, 7, &None, LineNumber(0)..LineNumber(1)) {
        SearchRequest::Start { query, .. } => assert_eq!(query.mode, SearchMode::Regex),
        _ => panic!("expected a new search"),
    }
}

#[test]
fn same_search_is_not_restarted() {
    let last = Some(SearchKey {
        query: "timeout".to_owned(),
        regex: false,
        case_insensitive: true,
        max_hits: 5000,
    });
    let visible = LineNumber(0)..LineNumber(40);
    assert!(matches!(
        plan_search_request("timeout  ", false, true, 5000, &last, visible.clone()),
        SearchRequest::Unchanged
    ));
    assert!(matches!(
        plan_search_request("timeout", false, false, 5000, &last, visible.clone()),
        SearchRequest::Start { .. }
    ));
    assert!(matches!(
        plan_search_request("timeout", false, true, 10, &last, visible),
        SearchRequest::Start { .. }
    ));
}

#[test]
fn session_names_fall_back_to_the_file_name() {
    assert_eq!(session_name("  incident 42 ", Some("app.log")), "incident 42");
    assert_eq!(session_name(" ", Some("app.log")), "app.log");
    assert_eq!(session_name("", None), "session");
}

#[test]
fn saving_a_session_replaces_its_namesake_and_moves_it_first() {
    let mut sessions = vec![session("a", 1), session("b", 2), session("c", 3)];
    remember_session(&mut sessions, session("b", 20));
    let names: Vec<(&str, u64)> =
        sessions.iter().map(|saved| (saved.name.as_str(), saved.top_line)).collect();
    assert_eq!(names, vec![("b", 20), ("a", 1), ("c", 3)]);
    assert_eq!(sessions[0].log_path, PathBuf::from("b.log"));
}

#[test]
fn saved_sessions_are_capped() {
    let mut sessions: Vec<SavedSession> =
        (0..SAVED_SESSIONS_LIMIT as u64).map(|i| session(&format!("s{i}"), i)).collect();
    remember_session(&mut sessions, session("new", 99));
    assert_eq!(sessions.len(), SAVED_SESSIONS_LIMIT);
    assert_eq!(sessions[0].name, "new");
    assert_eq!(sessions[1].name, "s0");
    assert_eq!(sessions[SAVED_SESSIONS_LIMIT - 1].name, format!("s{}", SAVED_SESSIONS_LIMIT - 2));
}

#[test]
fn service_slot_is_the_djb2_hash_modulo_the_palette() {
    // 5381 * 33 + 'a' = 177670; * 33 + 'p' = 5863222; * 33 + 'i' = 193486431
    assert_eq!(service_palette_slot("api"), (193486431u64 % 8) as usize);
    assert_eq!(service_palette_slot(""), (5381u64 % 8) as usize);
    for service in ["db", "cache", "gateway", "payments"] {
        let slot = service_palette_slot(service);
        assert!(slot < SERVICE_PALETTE_LEN);
        assert_eq!(slot, service_palette_slot(service));
    }
}
