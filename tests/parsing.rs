use rpal::job::Job;
use rpal::pal::PalType;
use rpal::parser::{parse, parse_check, parse_pal, parse_random_pal, ParseError};

fn job(id: usize, input: &str, expected: &str) -> Job {
    Job {
        id,
        input: input.as_bytes().to_vec(),
        expected_output: expected.as_bytes().to_vec(),
        actual_output: Vec::new(),
    }
}

#[test]
fn check_file_with_pairs_gives_one_job_each() {
    let text = "==\na\nb\n==\nc\n==\nd\n==\n\n==\n";
    let jobs = parse_check(text).unwrap();
    assert_eq!(jobs, vec![job(0, "a\nb\n", "c\n"), job(1, "d\n", "\n")]);
}

#[test]
fn check_file_drops_unfinished_pair() {
    let text = "--\n1\n--\n2\n--\n3\n--\n4\n";
    let jobs = parse_check(text).unwrap();
    assert_eq!(jobs, vec![job(0, "1\n", "2\n")]);
}

#[test]
fn check_file_reads_crlf_lines() {
    let text = "--\r\nin\r\n--\r\nout\r\n--\r\n";
    let jobs = parse_check(text).unwrap();
    assert_eq!(jobs, vec![job(0, "in\n", "out\n")]);
}

#[test]
fn check_file_keeps_non_ascii_bytes() {
    let text = "--\nhé\n--\n✓\n--\n";
    let jobs = parse_check(text).unwrap();
    assert_eq!(jobs, vec![job(0, "hé\n", "✓\n")]);
}

#[test]
fn check_file_empty_is_eof() {
    assert!(matches!(parse_check(""), Err(ParseError::UnexpectedEOF(_))));
}

#[test]
fn pal_file_unknown_kind() {
    match parse_pal("fancy\n--\n") {
        Err(ParseError::UnkownInputType(k)) => assert_eq!(k, "fancy"),
        _ => panic!("expected an unknown kind"),
    }
}

#[test]
fn pal_file_without_separator_is_eof() {
    assert!(matches!(parse_pal("simple\n"), Err(ParseError::UnexpectedEOF(_))));
    assert!(matches!(parse_pal(""), Err(ParseError::UnexpectedEOF(_))));
}

#[test]
fn pal_glob_file_numbers_expanded_jobs_in_order() {
    let jobs = parse_pal("glob\n#\n[1-2]\n#\n[ab]c\n#\n").unwrap();
    assert_eq!(
        jobs,
        vec![job(0, "1\n", ""), job(1, "2\n", ""), job(2, "ac\n", ""), job(3, "bc\n", "")]
    );
}

#[test]
fn random_file_splits_count_over_templates() {
    let jobs = parse_random_pal("5\n--\n[1-3]\n--\nab\n--\n").unwrap();
    assert_eq!(jobs.len(), 4);
    for (k, j) in jobs.iter().enumerate() {
        assert_eq!(j.id, k);
        assert!(j.expected_output.is_empty());
    }
    for j in &jobs[..2] {
        let s = String::from_utf8(j.input.clone()).unwrap();
        assert!(s == "1\n" || s == "2\n" || s == "3\n");
    }
    assert_eq!(jobs[2].input, b"ab\n".to_vec());
    assert_eq!(jobs[3].input, b"ab\n".to_vec());
}

#[test]
fn random_file_errors() {
    assert!(matches!(parse_random_pal(""), Err(ParseError::UnexpectedEOF(_))));
    assert!(matches!(parse_random_pal("many\n--\n"), Err(ParseError::FormatError(_))));
    assert!(matches!(parse_random_pal("4\n"), Err(ParseError::UnexpectedEOF(_))));
    assert!(matches!(parse_random_pal("4\n--\n"), Err(ParseError::FormatError(_))));
    assert!(matches!(parse_random_pal("2\n--\n[9-1]\n--\n"), Err(ParseError::FormatError(_))));
}

#[test]
fn random_file_count_accepts_plus_sign() {
    let jobs = parse(&PalType::RandomPal, "+2\n--\nx\n--\n").unwrap();
    assert_eq!(jobs, vec![job(0, "x\n", ""), job(1, "x\n", "")]);
}

#[test]
fn parse_error_messages() {
    assert_eq!(ParseError::FormatError(String::from("bad")).message(), "Format error: bad");
    assert_eq!(ParseError::UnexpectedEOF(String::from("x")).message(), "Unexpected EOF: x");
}
