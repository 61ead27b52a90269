use nomos::utils::{
    collect_descendants, get_process_recursive, is_signature_valid, shell_command, signature_matches,
};

#[test]
fn signature_of_documented_example_is_valid() {
    let signature = "sha256=757107ea0eb2509fc211221cce984b8a37570b6d7586c22c46f4379c8b043e17";
    assert_eq!(
        is_signature_valid("Hello, World!", signature, "It's a Secret to Everybody"),
        Ok(true)
    );
}

#[test]
fn signature_with_other_secret_is_invalid() {
    let signature = "sha256=757107ea0eb2509fc211221cce984b8a37570b6d7586c22c46f4379c8b043e17";
    assert_eq!(is_signature_valid("Hello, World!", signature, "other secret"), Ok(false));
}

#[test]
fn signature_needs_prefix_and_lowercase() {
    let digits = "757107ea0eb2509fc211221cce984b8a37570b6d7586c22c46f4379c8b043e17";
    assert_eq!(is_signature_valid("Hello, World!", digits, "It's a Secret to Everybody"), Ok(false));
    let upper = format!("sha256={}", digits.to_uppercase());
    assert_eq!(is_signature_valid("Hello, World!", &upper, "It's a Secret to Everybody"), Ok(false));
}

#[test]
fn signature_with_empty_and_long_keys() {
    assert_eq!(
        is_signature_valid(
            "",
            "sha256=b613679a0814d9ec772f95d778c35fc5ff1697c493715653c6c712144292c5ad",
            ""
        ),
        Ok(true)
    );
    let long_key = "k".repeat(100);
    assert_eq!(
        is_signature_valid(
            "msg",
            "sha256=bd56a1782c2830e8abc6ed866a57a1230661e650b84c62f7ee3accc5fa5af491",
            &long_key
        ),
        Ok(true)
    );
}

#[test]
fn signature_matches_encodes_tag_in_lowercase_hex() {
    assert!(signature_matches(&[0x00, 0x0f, 0xa0, 0xff], "sha256=000fa0ff"));
    assert!(!signature_matches(&[0x00, 0x0f, 0xa0, 0xff], "sha256=000FA0FF"));
    assert!(signature_matches(&[], "sha256="));
    assert!(!signature_matches(&[1], "sha256=1"));
}

#[test]
fn descendants_come_generation_by_generation() {
    let table = vec![
        (1, None),
        (10, Some(1)),
        (11, Some(1)),
        (20, Some(10)),
        (21, Some(11)),
        (22, Some(10)),
        (30, Some(20)),
        (99, Some(2)),
    ];
    assert_eq!(collect_descendants(1, &table), vec![10, 11, 20, 22, 21, 30]);
    assert_eq!(collect_descendants(11, &table), vec![21]);
    assert_eq!(collect_descendants(30, &table), Vec::<usize>::new());
    assert_eq!(collect_descendants(7, &table), Vec::<usize>::new());
}

#[test]
fn descendants_of_a_long_chain_are_all_found() {
    let table = vec![(5, Some(4)), (4, Some(3)), (3, Some(2)), (2, Some(1)), (1, Some(0))];
    assert_eq!(collect_descendants(0, &table), vec![1, 2, 3, 4, 5]);
    assert_eq!(collect_descendants(3, &table), vec![4, 5]);
}

#[test]
fn descendants_with_a_repeated_id_come_once_per_entry() {
    let table = vec![(7, Some(1)), (7, Some(1)), (8, Some(7))];
    assert_eq!(collect_descendants(1, &table), vec![7, 7, 8, 8]);
}

#[test]
fn process_without_children_has_no_descendants() {
    let missing = 4_000_000_000usize;
    assert!(get_process_recursive(missing).is_empty());
}

#[test]
fn shell_command_by_platform() {
    let unix = shell_command("echo hi", false);
    assert_eq!(unix.program, "sh");
    assert_eq!(unix.args, vec!["-c", "echo hi"]);
    let windows = shell_command("echo hi", true);
    assert_eq!(windows.program, "cmd");
    assert_eq!(windows.args, vec!["/C", "echo hi"]);
}
