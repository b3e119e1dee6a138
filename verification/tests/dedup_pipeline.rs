use remove_duplicates::dedup::{deduplicate, is_valid_file_type, join_output, DedupOutcome};
use remove_duplicates::ingest::{
    ingest, Chunk, IngestError, Ingestor, SizeLimit, DEFAULT_MAX_BYTES,
};

fn run_pipeline(input: &str) -> DedupOutcome {
    let limit = SizeLimit::default();
    let buffer = ingest(vec![Chunk::Bytes(input.as_bytes().to_vec())], &limit)
        .expect("input under the ceiling must ingest");
    deduplicate(buffer)
}

fn remove_duplicates(input: &str) -> Vec<String> {
    run_pipeline(input).lines
}

#[test]
fn test_remove_duplicates_basic() {
    let input = "line1\nline2\nline1\nline3";
    let result = remove_duplicates(input);
    assert_eq!(result, vec!["line1", "line2", "line3"]);
}

#[test]
fn test_remove_duplicates_with_empty_lines() {
    let input = "line1\n\nline2\n\nline1\nline3";
    let result = remove_duplicates(input);
    assert_eq!(result, vec!["line1", "line2", "line3"]);
}

#[test]
fn test_remove_duplicates_with_whitespace() {
    let input = "  line1  \nline2\n  line1\nline3  ";
    let result = remove_duplicates(input);
    assert_eq!(result, vec!["line1", "line2", "line3"]);
}

#[test]
fn test_remove_duplicates_empty_input() {
    let input = "";
    let result = remove_duplicates(input);
    assert!(result.is_empty());
}

#[test]
fn test_is_valid_file_type() {
    assert!(is_valid_file_type("test.txt"));
    assert!(!is_valid_file_type("test.pdf"));
    assert!(!is_valid_file_type("test"));
    assert!(!is_valid_file_type(""));
}

#[test]
fn test_is_file_size_valid() {
    let limit = SizeLimit::default();
    assert!(limit.admits(0));
    assert!(limit.admits(1024));
    assert!(limit.admits(2 * 1024 * 1024));
    assert!(!limit.admits(2 * 1024 * 1024 + 1));
}

#[test]
fn test_utf8_validation() {
    let valid_utf8 = vec![72, 101, 108, 108, 111];
    let result = String::from_utf8_lossy(&valid_utf8);
    assert_eq!(result, "Hello");

    let invalid_utf8 = vec![72, 101, 108, 108, 111, 255];
    let result = String::from_utf8_lossy(&invalid_utf8);
    assert_eq!(result, "Hello\u{FFFD}");
}

#[test]
fn test_edge_cases() {
    let input = "   \n  \t  ";
    let result = remove_duplicates(input);
    assert!(result.is_empty());

    let input = "line1\nline2\nline1\nline3\n!@#$%^&*()";
    let result = remove_duplicates(input);
    assert_eq!(result, vec!["line1", "line2", "line3", "!@#$%^&*()"]);
}

#[test]
fn count_always_matches_line_count() {
    for input in ["", "a\nb\na", "  \n\t", "x\nx\nx\ny"] {
        let outcome = run_pipeline(input);
        assert_eq!(outcome.count, outcome.lines.len());
    }
}

#[test]
fn deduplication_is_deterministic_per_buffer() {
    let input = "alpha\nbeta\nalpha\n  beta \ngamma";
    let first = run_pipeline(input);
    let second = run_pipeline(input);
    assert_eq!(first.lines, second.lines);
    assert_eq!(first.count, second.count);
}

#[test]
fn deduplication_of_own_output_is_identity() {
    let input = "alpha\nbeta\nalpha\ngamma\n\n beta";
    let once = run_pipeline(input);
    let again = run_pipeline(&join_output(&once.lines));
    assert_eq!(once.lines, again.lines);
    assert_eq!(once.count, again.count);
}

#[test]
fn dedup_spans_chunk_boundaries() {
    let limit = SizeLimit::default();
    let chunks = vec![
        Chunk::Bytes(b"line1\nli".to_vec()),
        Chunk::Bytes(b"ne1\nline2".to_vec()),
    ];
    let buffer = ingest(chunks, &limit).expect("small payload must ingest");
    let outcome = deduplicate(buffer);
    assert_eq!(outcome.lines, vec!["line1", "line2"]);
    assert_eq!(outcome.count, 2);
}

#[test]
fn ingest_rejects_stream_over_ceiling() {
    let limit = SizeLimit { max_bytes: 10 };
    let chunks = vec![
        Chunk::Bytes(vec![b'a'; 7]),
        Chunk::Bytes(vec![b'b'; 7]),
        Chunk::Bytes(vec![b'c'; 7]),
    ];
    assert!(matches!(ingest(chunks, &limit), Err(IngestError::TooLarge)));
}

#[test]
fn ingest_accepts_stream_exactly_at_ceiling() {
    let limit = SizeLimit { max_bytes: 10 };
    let chunks = vec![Chunk::Bytes(vec![b'a'; 4]), Chunk::Bytes(vec![b'b'; 6])];
    let buffer = ingest(chunks, &limit).expect("a payload at the ceiling is admitted");
    assert_eq!(buffer.len(), 10);
}

#[test]
fn ingest_reports_failed_read() {
    let limit = SizeLimit::default();
    let chunks = vec![
        Chunk::Bytes(b"line1\n".to_vec()),
        Chunk::ReadError,
        Chunk::Bytes(b"line2\n".to_vec()),
    ];
    assert!(matches!(ingest(chunks, &limit), Err(IngestError::ReadFailed)));
}

#[test]
fn ingest_of_no_chunks_is_empty_success() {
    let limit = SizeLimit::default();
    let buffer = ingest(Vec::new(), &limit).expect("an absent payload is a valid empty one");
    assert_eq!(buffer.len(), 0);
    let outcome = deduplicate(buffer);
    assert_eq!(outcome.count, 0);
    assert!(outcome.lines.is_empty());
}

#[test]
fn invalid_bytes_are_replaced_not_rejected() {
    let limit = SizeLimit::default();
    let mut payload = b"Hello".to_vec();
    payload.push(0xFF);
    let buffer = ingest(vec![Chunk::Bytes(payload)], &limit)
        .expect("byte values never make ingestion fail");
    let outcome = deduplicate(buffer);
    assert_eq!(outcome.lines, vec!["Hello\u{FFFD}"]);
    assert_eq!(outcome.count, 1);
}

#[test]
fn trimming_strips_unicode_blanks() {
    let input = "\u{00A0}line1\u{00A0}\n\tline2\u{3000}\nline1";
    let result = remove_duplicates(input);
    assert_eq!(result, vec!["line1", "line2"]);
}

#[test]
fn carriage_returns_are_trimmed_from_line_ends() {
    let input = "alpha\r\nbeta\r\nalpha\r\n";
    let result = remove_duplicates(input);
    assert_eq!(result, vec!["alpha", "beta"]);
}

#[test]
fn join_output_uses_single_newlines_no_trailer() {
    let outcome = run_pipeline("a\nb\na\nc");
    assert_eq!(join_output(&outcome.lines), "a\nb\nc");
    let empty: Vec<String> = Vec::new();
    assert_eq!(join_output(&empty), "");
    let one = vec![String::from("solo")];
    assert_eq!(join_output(&one), "solo");
}

#[test]
fn ingestor_completes_a_stream() {
    let limit = SizeLimit::default();
    let mut ingestor = Ingestor::new(&limit);
    assert!(ingestor.push(&Chunk::Bytes(b"line1\n".to_vec())).is_ok());
    assert!(ingestor.push(&Chunk::Bytes(b"line1".to_vec())).is_ok());
    let buffer = ingestor.finish().expect("an unrefused stream must finish");
    assert_eq!(buffer.len(), 11);
    let outcome = deduplicate(buffer);
    assert_eq!(outcome.lines, vec!["line1"]);
}

#[test]
fn ingestor_latches_too_large() {
    let limit = SizeLimit { max_bytes: 8 };
    let mut ingestor = Ingestor::new(&limit);
    assert!(ingestor.push(&Chunk::Bytes(b"abcd".to_vec())).is_ok());
    assert_eq!(
        ingestor.push(&Chunk::Bytes(b"efghij".to_vec())),
        Err(IngestError::TooLarge)
    );
    assert_eq!(
        ingestor.push(&Chunk::Bytes(b"e".to_vec())),
        Err(IngestError::TooLarge)
    );
    assert!(matches!(ingestor.finish(), Err(IngestError::TooLarge)));
}

#[test]
fn ingestor_latches_failed_read() {
    let limit = SizeLimit::default();
    let mut ingestor = Ingestor::new(&limit);
    assert!(ingestor.push(&Chunk::Bytes(b"x".to_vec())).is_ok());
    assert_eq!(ingestor.push(&Chunk::ReadError), Err(IngestError::ReadFailed));
    assert_eq!(
        ingestor.push(&Chunk::Bytes(b"y".to_vec())),
        Err(IngestError::ReadFailed)
    );
    assert!(matches!(ingestor.finish(), Err(IngestError::ReadFailed)));
}

#[test]
fn default_ceiling_is_two_mebibytes() {
    assert_eq!(DEFAULT_MAX_BYTES, 2 * 1024 * 1024);
    assert_eq!(SizeLimit::default().max_bytes, DEFAULT_MAX_BYTES);
}
