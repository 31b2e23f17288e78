use dictd::fallback::{ends_answer, fallback_command, fallback_step, is_5or2, FallbackStep};

#[test]
fn two_and_five_open_a_final_status() {
    assert!(is_5or2(&'2'));
    assert!(is_5or2(&'5'));
    assert!(!is_5or2(&'1'));
    assert!(!is_5or2(&'3'));
    assert!(!is_5or2(&'a'));
    assert!(!is_5or2(&'٢'));
}

#[test]
fn final_status_lines() {
    assert!(ends_answer("2501"));
    assert!(ends_answer("5209 end"));
    assert!(ends_answer("25x1 odd"));
    assert!(ends_answer("20 0"));
    assert!(ends_answer("25é1"));
    assert!(!ends_answer("250 ok"));
    assert!(!ends_answer("552 no match"));
    assert!(!ends_answer("150 1 definitions retrieved"));
    assert!(!ends_answer("1501"));
    assert!(!ends_answer("250"));
    assert!(!ends_answer("25"));
    assert!(!ends_answer(""));
    assert!(!ends_answer("2a01"));
    assert!(!ends_answer("A round fruit"));
    assert!(!ends_answer("."));
    assert!(!ends_answer("25é٢"));
    assert!(!ends_answer("٢501"));
}

#[test]
fn command_for_the_other_server() {
    assert_eq!(fallback_command("wn", b"apple"), b"DEFINE wn apple\n".to_vec());
    assert_eq!(fallback_command("*", b""), b"DEFINE * \n".to_vec());
    assert_eq!(fallback_command("", b"two words"), b"DEFINE  two words\n".to_vec());
}

#[test]
fn servers_are_asked_in_turn_until_one_answers() {
    assert_eq!(fallback_step(0, &vec![]), FallbackStep::SendReply);
    assert_eq!(fallback_step(2, &vec![]), FallbackStep::Ask(0));
    assert_eq!(fallback_step(2, &vec![0]), FallbackStep::Ask(1));
    assert_eq!(fallback_step(2, &vec![0, 0]), FallbackStep::SendReply);
    assert_eq!(fallback_step(2, &vec![3]), FallbackStep::Answered);
    assert_eq!(fallback_step(2, &vec![0, 1]), FallbackStep::Answered);
    assert_eq!(fallback_step(1, &vec![7]), FallbackStep::Answered);
    assert_eq!(fallback_step(1, &vec![0]), FallbackStep::SendReply);
}
