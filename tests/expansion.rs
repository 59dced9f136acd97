use rpal::parser::{expand_glob, expand_random};

fn strings(v: &[&str]) -> Vec<String> {
    v.iter().map(|s| s.to_string()).collect()
}

#[test]
fn glob_class_at_start_expands() {
    assert_eq!(expand_glob(String::from("[ab]x")), strings(&["ax", "bx"]));
}

#[test]
fn glob_empty_range_drops_the_string() {
    assert_eq!(expand_glob(String::from("a[3-1]b")), Vec::<String>::new());
}

#[test]
fn glob_range_counts_each_integer_once() {
    assert_eq!(expand_glob(String::from("n=[8-11]")), strings(&["n=8", "n=9", "n=10", "n=11"]));
}

#[test]
fn glob_range_with_leading_zeros() {
    assert_eq!(expand_glob(String::from("[007-9]")), strings(&["7", "8", "9"]));
}

#[test]
fn glob_class_keeps_member_order_and_count() {
    assert_eq!(expand_glob(String::from("x[cab]")), strings(&["xc", "xa", "xb"]));
}

#[test]
fn glob_escaped_brackets_inside_class_are_data() {
    assert_eq!(expand_glob(String::from(r"[a\]\[]")), strings(&["a", "]", "["]));
}

#[test]
fn glob_escaped_class_is_left_alone() {
    assert_eq!(expand_glob(String::from(r"\[abc\]")), strings(&[r"\[abc\]"]));
}

#[test]
fn glob_nested_brackets_resolve_inside_out() {
    assert_eq!(expand_glob(String::from("[[1-2]]")), strings(&["1", "2"]));
}

#[test]
fn glob_no_bracket_is_unchanged() {
    assert_eq!(expand_glob(String::from("plain text\n")), strings(&["plain text\n"]));
}

#[test]
fn glob_class_does_not_span_lines() {
    assert_eq!(expand_glob(String::from("[a\nb]")), strings(&["[a\nb]"]));
}

#[test]
fn glob_expansion_is_idempotent() {
    let once = expand_glob(String::from(r"[1-2]-[xy]\[k\]"));
    assert_eq!(once.len(), 4);
    let mut again = Vec::new();
    for s in &once {
        again.extend(expand_glob(s.clone()));
    }
    assert_eq!(again, once);
}

#[test]
fn glob_range_above_u64_is_not_a_range() {
    let out = expand_glob(String::from("[99999999999999999999-1]"));
    assert_eq!(out.len(), 22);
    assert_eq!(out[0], "9");
    assert_eq!(out[20], "-");
    assert_eq!(out[21], "1");
}

#[test]
fn random_resolves_every_bracket_within_bounds() {
    for _ in 0..50 {
        let out = expand_random(String::from("[3-6] [xy] [10-12]")).unwrap();
        assert!(!out.contains('['));
        let parts: Vec<&str> = out.split(' ').collect();
        let a: u64 = parts[0].parse().unwrap();
        assert!((3..=6).contains(&a));
        assert!(parts[1] == "x" || parts[1] == "y");
        let b: u64 = parts[2].parse().unwrap();
        assert!((10..=12).contains(&b));
    }
}

#[test]
fn random_result_is_one_of_the_glob_expansions() {
    let all = expand_glob(String::from("[1-2][ab]"));
    for _ in 0..20 {
        let out = expand_random(String::from("[1-2][ab]")).unwrap();
        assert!(all.contains(&out));
    }
}

#[test]
fn random_empty_range_gives_none() {
    assert_eq!(expand_random(String::from("x[5-3]")), None);
}

#[test]
fn random_single_value_range() {
    assert_eq!(expand_random(String::from("[4-4]")), Some(String::from("4")));
}

#[test]
fn random_draws_cover_the_whole_range() {
    let mut seen = [false; 4];
    for _ in 0..300 {
        let out = expand_random(String::from("[1-4]")).unwrap();
        let v: usize = out.parse().unwrap();
        seen[v - 1] = true;
    }
    assert!(seen.iter().all(|s| *s));
}

#[test]
fn random_draws_cover_every_member() {
    let mut seen = [false; 3];
    for _ in 0..300 {
        let out = expand_random(String::from("[pqr]")).unwrap();
        match out.as_str() {
            "p" => seen[0] = true,
            "q" => seen[1] = true,
            "r" => seen[2] = true,
            other => panic!("unexpected {}", other),
        }
    }
    assert!(seen.iter().all(|s| *s));
}
