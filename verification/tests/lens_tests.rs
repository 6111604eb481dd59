use code_lens::lens::{
    apply_code_lens, build_selection_command, editor_code_lens, matching_lenses,
    ranges_lines_overlap, sort_lenses, text_document_code_lens, Context,
};
use code_lens::types::{
    CodeLens, CodeLensCapability, Command, Document, EditorMeta, LensError, OffsetEncoding,
    Position, Range, ServerCapabilities,
};

fn pos(line: u32, character: u32) -> Position {
    Position { line, character }
}

fn rng(start_line: u32, end_line: u32) -> Range {
    Range { start: pos(start_line, 0), end: pos(end_line, 4) }
}

fn lens(start_line: u32, end_line: u32, title: &str, command: &str) -> CodeLens {
    CodeLens {
        range: rng(start_line, end_line),
        command: Some(Command {
            title: title.to_string(),
            command: command.to_string(),
            arguments: None,
        }),
    }
}

fn bare_lens(start_line: u32, end_line: u32) -> CodeLens {
    CodeLens { range: rng(start_line, end_line), command: None }
}

fn caps() -> Option<ServerCapabilities> {
    Some(ServerCapabilities {
        code_lens_provider: Some(CodeLensCapability { resolve_provider: None }),
    })
}

fn ctx_with_doc(buffile: &str, version: u64) -> Context {
    let mut ctx = Context::new(caps(), OffsetEncoding::Utf16);
    ctx.open_document(buffile.to_string(), Document { text: String::new(), version });
    ctx
}

fn meta(buffile: &str) -> EditorMeta {
    EditorMeta { buffile: buffile.to_string() }
}

#[test]
fn no_request_without_capability() {
    let ctx = Context::new(None, OffsetEncoding::Utf8);
    let r = text_document_code_lens(&meta("/tmp/main.rs"), &ctx);
    assert!(matches!(r, Err(LensError::CapabilityMissing)));
}

#[test]
fn no_request_when_lens_capability_absent() {
    let ctx = Context::new(
        Some(ServerCapabilities { code_lens_provider: None }),
        OffsetEncoding::Utf8,
    );
    let r = text_document_code_lens(&meta("/tmp/main.rs"), &ctx);
    assert!(matches!(r, Err(LensError::CapabilityMissing)));
}

#[test]
fn request_carries_file_uri() {
    let ctx = Context::new(caps(), OffsetEncoding::Utf8);
    let r = text_document_code_lens(&meta("/tmp/main.rs"), &ctx).unwrap();
    assert_eq!(r.uri, "file:///tmp/main.rs");
}

#[test]
fn relative_path_reports_error() {
    let ctx = Context::new(caps(), OffsetEncoding::Utf8);
    let r = text_document_code_lens(&meta("main.rs"), &ctx);
    assert!(matches!(r, Err(LensError::InvalidFilePath)));
}

#[test]
fn error_messages_are_single_lines() {
    assert_eq!(
        LensError::CapabilityMissing.message(),
        "server does not support code lenses"
    );
    assert_eq!(LensError::InvalidFilePath.message(), "invalid buffer file path");
}

#[test]
fn response_is_stored_sorted_by_start_line() {
    let mut ctx = ctx_with_doc("/f", 1);
    let response = vec![lens(5, 5, "C", "c"), lens(0, 0, "A", "a"), lens(3, 3, "B", "b")];
    let r = editor_code_lens(&meta("/f"), Some(response), "", &mut ctx);
    assert!(r.is_some());
    let stored = ctx.lenses_for("/f").unwrap();
    let lines: Vec<u32> = stored.iter().map(|l| l.range.start.line).collect();
    assert_eq!(lines, vec![0, 3, 5]);
    let titles: Vec<&str> = stored
        .iter()
        .map(|l| l.command.as_ref().unwrap().title.as_str())
        .collect();
    assert_eq!(titles, vec!["A", "B", "C"]);
}

#[test]
fn sort_keeps_arrival_order_for_equal_lines() {
    let input = vec![lens(2, 2, "first", "f"), lens(2, 2, "second", "s"), lens(1, 1, "third", "t")];
    let sorted = sort_lenses(input);
    let titles: Vec<&str> = sorted
        .iter()
        .map(|l| l.command.as_ref().unwrap().title.as_str())
        .collect();
    assert_eq!(titles, vec!["third", "first", "second"]);
}

#[test]
fn response_for_closed_document_is_discarded() {
    let mut ctx = Context::new(caps(), OffsetEncoding::Utf16);
    let r = editor_code_lens(&meta("/gone"), Some(vec![lens(0, 0, "A", "a")]), "", &mut ctx);
    assert!(r.is_none());
    assert!(ctx.lenses_for("/gone").is_none());
}

#[test]
fn display_command_is_version_guarded_and_escaped() {
    let mut ctx = ctx_with_doc("/f", 7);
    let r = editor_code_lens(&meta("/f"), None, "1|X§", &mut ctx).unwrap();
    assert_eq!(r.buffile, "/f");
    assert_eq!(r.version, 7);
    assert_eq!(
        r.command,
        "evaluate-commands -buffer '/f' %§evaluate-commands \"set-option buffer lsp_error_lines 7 1|X§§ '0|%opt[lsp_diagnostic_line_error_sign]'\"§"
    );
}

#[test]
fn empty_response_stores_empty_list_and_selection_errors() {
    let mut ctx = ctx_with_doc("/f", 1);
    let r = editor_code_lens(&meta("/f"), None, "", &mut ctx);
    assert!(r.is_some());
    assert_eq!(ctx.lenses_for("/f").unwrap().len(), 0);
    let applied = apply_code_lens(&meta("/f"), rng(0, 100), &ctx);
    assert_eq!(
        applied,
        Some("lsp-show-error 'no code lens in selection'".to_string())
    );
}

#[test]
fn overlap_is_line_based_and_inclusive() {
    assert!(ranges_lines_overlap(rng(0, 2), rng(2, 5)));
    assert!(ranges_lines_overlap(rng(2, 5), rng(0, 2)));
    assert!(ranges_lines_overlap(rng(1, 1), rng(0, 3)));
    assert!(!ranges_lines_overlap(rng(0, 1), rng(2, 5)));
    assert!(!ranges_lines_overlap(rng(6, 9), rng(2, 5)));
}

#[test]
fn selection_matches_only_overlapping_lenses() {
    let stored = vec![lens(0, 0, "A", "a"), lens(5, 5, "B", "b")];
    let matched = matching_lenses(&stored, rng(3, 6));
    assert_eq!(matched.len(), 1);
    assert_eq!(matched[0].command.as_ref().unwrap().title, "B");
    let matched_all = matching_lenses(&stored, rng(0, 5));
    assert_eq!(matched_all.len(), 2);
    assert_eq!(matched_all[0].command.as_ref().unwrap().title, "A");
    assert_eq!(matched_all[1].command.as_ref().unwrap().title, "B");
}

#[test]
fn selection_without_document_is_silent() {
    let ctx = Context::new(caps(), OffsetEncoding::Utf16);
    assert_eq!(apply_code_lens(&meta("/f"), rng(0, 1), &ctx), None);
}

#[test]
fn selection_without_stored_lenses_is_silent() {
    let ctx = ctx_with_doc("/f", 1);
    assert_eq!(apply_code_lens(&meta("/f"), rng(0, 1), &ctx), None);
}

#[test]
fn apply_builds_invocation_for_matched_lens() {
    let mut ctx = ctx_with_doc("/f", 1);
    let r = editor_code_lens(&meta("/f"), Some(vec![lens(0, 0, "Run", "cmd")]), "", &mut ctx);
    assert!(r.is_some());
    let applied = apply_code_lens(&meta("/f"), rng(0, 0), &ctx).unwrap();
    assert_eq!(
        applied,
        "lsp-perform-code-lens 'Run' 'lsp-execute-command cmd ''\"[]\"'''"
    );
}

#[test]
fn apply_joins_several_matches_in_stored_order() {
    let l1 = lens(0, 0, "T1", "cmd1");
    let l2 = lens(1, 1, "T2", "cmd2");
    let refs = vec![&l1, &l2];
    let built = build_selection_command(&refs);
    assert_eq!(
        built,
        "lsp-perform-code-lens 'T1' 'lsp-execute-command cmd1 ''\"[]\"''' 'T2' 'lsp-execute-command cmd2 ''\"[]\"'''"
    );
}

#[test]
fn matched_lens_without_command_reports_error() {
    let l1 = bare_lens(0, 0);
    let refs = vec![&l1];
    let built = build_selection_command(&refs);
    assert_eq!(built, "lsp-show-error 'code lens has no command'");
}

#[test]
fn arguments_travel_through_the_double_encoding() {
    let args = vec![
        serde_json::Value::String("a\"b".to_string()),
        serde_json::Value::Number(serde_json::Number::from(42)),
    ];
    let the_lens = CodeLens {
        range: rng(0, 0),
        command: Some(Command {
            title: "Run".to_string(),
            command: "cmd".to_string(),
            arguments: Some(args.clone()),
        }),
    };
    let refs = vec![&the_lens];
    let built = build_selection_command(&refs);
    // The invocation is `title-fragment invocation-fragment`, both quoted;
    // recover the payload from the inner invocation and decode it twice.
    let inner = built.strip_prefix("lsp-perform-code-lens 'Run' ").unwrap();
    let unquoted = code_lens::codec::editor_unquote(inner).unwrap();
    let payload = unquoted.strip_prefix("lsp-execute-command cmd ").unwrap();
    let json_text = code_lens::codec::decode_argument_payload(payload).unwrap();
    let decoded: Vec<serde_json::Value> = serde_json::from_str(&json_text).unwrap();
    assert_eq!(decoded, args);
}
