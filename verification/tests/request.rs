use batch_scheduler::request::{accept_tokens, is_stop_token};

#[test]
fn takes_every_token_short_of_stop_and_limit() {
    assert_eq!(accept_tokens(&vec![1, 2, 3], &vec![], 5), (3, false));
    assert_eq!(accept_tokens(&vec![1, 2, 3], &vec![9], 4), (3, false));
}

#[test]
fn takes_no_more_than_the_allowance() {
    assert_eq!(accept_tokens(&vec![1, 2, 3], &vec![], 2), (2, false));
    assert_eq!(accept_tokens(&vec![1, 2, 3], &vec![], 3), (3, false));
    assert_eq!(accept_tokens(&vec![1, 2, 3], &vec![], 0), (0, false));
    assert_eq!(accept_tokens(&vec![9], &vec![9], 0), (0, false));
}

#[test]
fn stops_with_the_first_stop_token() {
    assert_eq!(accept_tokens(&vec![1, 9, 3], &vec![9], 5), (2, true));
    assert_eq!(accept_tokens(&vec![9, 9, 9], &vec![9], 5), (1, true));
    assert_eq!(accept_tokens(&vec![1, 2, 7], &vec![9, 7], 5), (3, true));
    assert_eq!(accept_tokens(&vec![1, 7, 9], &vec![9, 7], 5), (2, true));
}

#[test]
fn a_stop_token_beyond_the_allowance_does_not_count() {
    assert_eq!(accept_tokens(&vec![1, 9], &vec![9], 1), (1, false));
    assert_eq!(accept_tokens(&vec![1, 9], &vec![9], 2), (2, true));
}

#[test]
fn an_empty_reply_gives_nothing() {
    assert_eq!(accept_tokens(&vec![], &vec![9], 3), (0, false));
    assert_eq!(accept_tokens(&vec![], &vec![], 0), (0, false));
}

#[test]
fn stop_tokens_are_found_by_value() {
    assert!(is_stop_token(&vec![4, 5, 6], 6));
    assert!(is_stop_token(&vec![4, 5, 6], 4));
    assert!(!is_stop_token(&vec![4, 5, 6], 7));
    assert!(!is_stop_token(&vec![], 0));
}
