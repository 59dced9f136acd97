use rpal::job::Job;
use rpal::pal::PalType;
use rpal::parser::{expand_glob, parse};

#[test]
fn test_parse_check() {
    let input = "----\naaabbbcccddd\neeefffggghhh\n----\naaabbbcccddd\neeefffggghhh\n----\naaabbbcccddd\neeefffggghhh\n----\naaabbbcccddd\neeefffggghhh\n----";
    let pal_list = parse(&PalType::Check, input).unwrap();
    assert_eq!(
        pal_list[0],
        Job {
            id: 0,
            input: "aaabbbcccddd\neeefffggghhh\n".as_bytes().to_vec(),
            expected_output: "aaabbbcccddd\neeefffggghhh\n".as_bytes().to_vec(),
            actual_output: Vec::new(),
        }
    );
    assert_eq!(
        pal_list[1],
        Job {
            id: 1,
            input: "aaabbbcccddd\neeefffggghhh\n".as_bytes().to_vec(),
            expected_output: "aaabbbcccddd\neeefffggghhh\n".as_bytes().to_vec(),
            actual_output: Vec::new(),
        }
    );
}

#[test]
fn test_parse_pal_simple() {
    let input = "simple\n----\naaabbb\ncccddd\n----\neeefff\nggghhh\n----\n";
    let pal_list = parse(&PalType::Pal, input).unwrap();
    assert_eq!(
        pal_list[0],
        Job {
            id: 0,
            input: "aaabbb\ncccddd\n".as_bytes().to_vec(),
            expected_output: Vec::new(),
            actual_output: Vec::new(),
        }
    );
    assert_eq!(
        pal_list[1],
        Job {
            id: 1,
            input: "eeefff\nggghhh\n".as_bytes().to_vec(),
            expected_output: Vec::new(),
            actual_output: Vec::new(),
        }
    );
}

#[test]
fn test_expand_glob_simple() {
    let raw_input = String::from("[1-3]bc[abc145]");
    let output = expand_glob(raw_input);

    assert_eq!(
        output,
        vec![
            String::from("1bca"),
            String::from("1bcb"),
            String::from("1bcc"),
            String::from("1bc1"),
            String::from("1bc4"),
            String::from("1bc5"),
            String::from("2bca"),
            String::from("2bcb"),
            String::from("2bcc"),
            String::from("2bc1"),
            String::from("2bc4"),
            String::from("2bc5"),
            String::from("3bca"),
            String::from("3bcb"),
            String::from("3bcc"),
            String::from("3bc1"),
            String::from("3bc4"),
            String::from("3bc5"),
        ]
    )
}

#[test]
fn test_expand_glob_do_not_touch_escape_character() {
    let raw_input = String::from(r"[1-3]abc\[1-3\]kkk\[abc\]");
    let output = expand_glob(raw_input);

    assert_eq!(
        output,
        vec![
            String::from(r"1abc\[1-3\]kkk\[abc\]"),
            String::from(r"2abc\[1-3\]kkk\[abc\]"),
            String::from(r"3abc\[1-3\]kkk\[abc\]"),
        ]
    )
}

#[test]
fn test_expand_glob_escaped_dash() {
    let raw_input = String::from(r"[1-3]abc[123\-456]");
    let output = expand_glob(raw_input);

    assert_eq!(
        output,
        vec![
            String::from(r"1abc1"),
            String::from(r"1abc2"),
            String::from(r"1abc3"),
            String::from(r"1abc-"),
            String::from(r"1abc4"),
            String::from(r"1abc5"),
            String::from(r"1abc6"),
            String::from(r"2abc1"),
            String::from(r"2abc2"),
            String::from(r"2abc3"),
            String::from(r"2abc-"),
            String::from(r"2abc4"),
            String::from(r"2abc5"),
            String::from(r"2abc6"),
            String::from(r"3abc1"),
            String::from(r"3abc2"),
            String::from(r"3abc3"),
            String::from(r"3abc-"),
            String::from(r"3abc4"),
            String::from(r"3abc5"),
            String::from(r"3abc6"),
        ]
    )
}

#[test]
fn test_parse_pal() {
    // simple
    let input = "simple\n----\n1\n2\n----\n3\n4\n----\n";
    let pal_list = parse(&PalType::Pal, input).unwrap();
    assert_eq!(
        pal_list[0],
        Job {
            id: 0,
            input: "1\n2\n".as_bytes().to_vec(),
            expected_output: Vec::new(),
            actual_output: Vec::new(),
        }
    );
    assert_eq!(
        pal_list[1],
        Job {
            id: 1,
            input: "3\n4\n".as_bytes().to_vec(),
            expected_output: Vec::new(),
            actual_output: Vec::new(),
        }
    );

    // glob
    let input = "glob\n----\n[1-3]abc\n----\nkkk[1-3]\n----\n";
    let pal_list = parse(&PalType::Pal, input).unwrap();
    assert_eq!(
        pal_list[0],
        Job {
            id: 0,
            input: "1abc\n".as_bytes().to_vec(),
            expected_output: Vec::new(),
            actual_output: Vec::new(),
        }
    );
    assert_eq!(
        pal_list[1],
        Job {
            id: 1,
            input: "2abc\n".as_bytes().to_vec(),
            expected_output: Vec::new(),
            actual_output: Vec::new(),
        }
    );
    assert_eq!(
        pal_list[2],
        Job {
            id: 2,
            input: "3abc\n".as_bytes().to_vec(),
            expected_output: Vec::new(),
            actual_output: Vec::new(),
        }
    );
    assert_eq!(
        pal_list[3],
        Job {
            id: 3,
            input: "kkk1\n".as_bytes().to_vec(),
            expected_output: Vec::new(),
            actual_output: Vec::new(),
        }
    );
    assert_eq!(
        pal_list[4],
        Job {
            id: 4,
            input: "kkk2\n".as_bytes().to_vec(),
            expected_output: Vec::new(),
            actual_output: Vec::new(),
        }
    );
    assert_eq!(
        pal_list[5],
        Job {
            id: 5,
            input: "kkk3\n".as_bytes().to_vec(),
            expected_output: Vec::new(),
            actual_output: Vec::new(),
        }
    );
}
