use sumcheck_uniskip::args::{arg_list, try_arg_list};

fn a(v: &[&str]) -> Vec<String> {
    v.iter().map(|s| s.to_string()).collect()
}

#[test]
fn arg_list_defaults() {
    let args = a(&["prog"]);
    assert_eq!(arg_list(&args, "--l", "16,20"), vec![16, 20]);
    assert_eq!(arg_list(&args, "--k", "1,2,3,4,5"), vec![1, 2, 3, 4, 5]);
    assert_eq!(arg_list(&args, "--reps", "3"), vec![3]);
}

#[test]
fn arg_list_given() {
    let args = a(&["prog", "--l", "10, 12 ,+14", "--d", "2"]);
    assert_eq!(arg_list(&args, "--l", "16,20"), vec![10, 12, 14]);
    assert_eq!(arg_list(&args, "--d", "2,3"), vec![2]);
    assert_eq!(arg_list(&args, "--tags", "1,2,4,8,16"), vec![1, 2, 4, 8, 16]);
    // a name at the end has no value: the default is used
    let args = a(&["prog", "--d"]);
    assert_eq!(arg_list(&args, "--d", "2,3"), vec![2, 3]);
    // the first occurrence wins
    let args = a(&["prog", "--d", "4", "--d", "5"]);
    assert_eq!(arg_list(&args, "--d", "2,3"), vec![4]);
    // unicode whitespace is trimmed
    let args = a(&["prog", "--d", "\u{3000}7\u{a0}"]);
    assert_eq!(arg_list(&args, "--d", "2,3"), vec![7]);
    assert_eq!(arg_list(&args, "--x", "18446744073709551615"), vec![usize::MAX]);
}

#[test]
fn arg_list_rejects_what_parse_rejects() {
    let args = a(&["prog", "--l", "1,,2"]);
    assert_eq!(try_arg_list(&args, "--l", "16"), None);
    for bad in ["-1", "+", "", "1a", "99999999999999999999", "1 2", "٣"] {
        let args = a(&["prog", "--l", bad]);
        assert_eq!(try_arg_list(&args, "--l", "16"), None, "{bad}");
        assert!(bad.trim().parse::<usize>().is_err());
    }
    for good in ["0", "+0", " 42 ", "007"] {
        let args = a(&["prog", "--l", good]);
        assert_eq!(try_arg_list(&args, "--l", "16"), Some(vec![good.trim().parse::<usize>().unwrap()]));
    }
}
