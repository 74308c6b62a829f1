use vrc_friends::fetcher::{
    classify, delete, get, handle_response, post, put, Action, Dispatch, FetchTask, Fetcher,
    Header, Method, Outcome, Request, CANCELLED, CONTENT_TYPE, JSON, UNAUTHORIZED,
};

fn json() -> Vec<Header> {
    vec![Header { name: "Content-Type".to_string(), value: "application/json".to_string() }]
}

fn plain(method: Method, url: &str, body: Option<&str>) -> Request {
    Request {
        method,
        url: url.to_string(),
        headers: json(),
        body: body.map(|text| text.to_string()),
    }
}

#[test]
fn every_request_declares_json() {
    assert_eq!(CONTENT_TYPE, "Content-Type");
    assert_eq!(JSON, "application/json");
    assert_eq!(get("u").headers, json());
    assert_eq!(delete("u").headers, json());
    assert_eq!(post("u", "{}".to_string()).headers, json());
    assert_eq!(put("u", "{}".to_string()).headers, json());
    let mut fetcher = Fetcher::new();
    assert_eq!(fetcher.get("u").request.headers, json());
    assert_eq!(fetcher.delete("u").request.headers, json());
    assert_eq!(fetcher.post("u", "{}".to_string()).request.headers, json());
    assert_eq!(fetcher.put("u", "{}".to_string()).request.headers, json());
}

#[test]
fn get_and_delete_carry_no_body() {
    assert_eq!(get("https://h/x"), plain(Method::Get, "https://h/x", None));
    assert_eq!(delete("https://h/x"), plain(Method::Delete, "https://h/x", None));
}

#[test]
fn post_and_put_carry_their_body() {
    assert_eq!(
        post("https://h/x", "{\"a\":1}".to_string()),
        plain(Method::Post, "https://h/x", Some("{\"a\":1}"))
    );
    assert_eq!(
        put("https://h/y", "[1,2]".to_string()),
        plain(Method::Put, "https://h/y", Some("[1,2]"))
    );
}

#[test]
fn a_success_with_a_decoded_body_is_a_success() {
    assert_eq!(classify::<u8, String>(200, Ok(7)), Outcome::Success(7));
    assert_eq!(classify::<u8, String>(204, Ok(7)), Outcome::Success(7));
    assert_eq!(classify::<u8, String>(299, Ok(7)), Outcome::Success(7));
}

#[test]
fn a_success_with_a_bad_body_is_a_decode_failure() {
    assert_eq!(
        classify::<u8, String>(200, Err("bad".to_string())),
        Outcome::DecodeFailure("bad".to_string())
    );
    assert_eq!(
        classify::<u8, String>(299, Err("bad".to_string())),
        Outcome::DecodeFailure("bad".to_string())
    );
}

#[test]
fn the_statuses_next_to_success_are_failures() {
    assert_eq!(classify::<u8, String>(199, Ok(7)), Outcome::HttpFailure);
    assert_eq!(classify::<u8, String>(300, Ok(7)), Outcome::HttpFailure);
}

#[test]
fn unauthorized_is_an_authentication_failure() {
    assert_eq!(UNAUTHORIZED, 401);
    assert_eq!(classify::<u8, String>(401, Ok(7)), Outcome::AuthFailure);
    assert_eq!(classify::<u8, String>(401, Err("bad".to_string())), Outcome::AuthFailure);
}

#[test]
fn a_timeout_status_is_a_cancellation() {
    assert_eq!(CANCELLED, 408);
    assert_eq!(classify::<u8, String>(408, Ok(7)), Outcome::Cancelled);
    assert_eq!(classify::<u8, String>(408, Err("bad".to_string())), Outcome::Cancelled);
}

#[test]
fn any_other_status_is_a_plain_failure() {
    for status in [0u16, 100, 301, 400, 403, 404, 407, 409, 500, 503, 999, 65535] {
        assert_eq!(classify::<u8, String>(status, Ok(7)), Outcome::HttpFailure);
        assert_eq!(classify::<u8, String>(status, Err("bad".to_string())), Outcome::HttpFailure);
    }
}

#[test]
fn each_outcome_has_its_action() {
    assert_eq!(Outcome::<u8, String>::Success(3).into_action(), Action::Emit(3));
    assert_eq!(
        Outcome::<u8, String>::DecodeFailure("bad".to_string()).into_action(),
        Action::Report(Some("bad".to_string()))
    );
    assert_eq!(Outcome::<u8, String>::AuthFailure.into_action(), Action::Report(None));
    assert_eq!(Outcome::<u8, String>::Cancelled.into_action(), Action::Ignore);
    assert_eq!(Outcome::<u8, String>::HttpFailure.into_action(), Action::Report(None));
}

#[test]
fn an_unauthorized_response_hands_no_value_on() {
    let friends = vec!["a".to_string(), "b".to_string()];
    let action = handle_response::<Vec<String>, String>(401, Ok(friends));
    assert!(!matches!(action, Action::Emit(_)));
    assert_eq!(action, Action::Report(None));
}

#[test]
fn a_cancelled_request_is_passed_over_in_silence() {
    let action = handle_response::<Vec<String>, String>(408, Ok(vec!["a".to_string()]));
    assert!(!matches!(action, Action::Emit(_)));
    assert!(!matches!(action, Action::Report(_)));
    assert_eq!(action, Action::Ignore);
    assert_eq!(
        handle_response::<u8, String>(408, Err("no answer".to_string())),
        Action::Ignore
    );
}

#[test]
fn a_good_response_hands_its_value_on() {
    assert_eq!(handle_response::<u8, String>(200, Ok(9)), Action::Emit(9));
    assert_eq!(
        handle_response::<Vec<u8>, String>(201, Ok(vec![1, 2])),
        Action::Emit(vec![1, 2])
    );
}

#[test]
fn a_body_that_does_not_decode_is_reported_with_its_error() {
    assert_eq!(
        handle_response::<u8, String>(200, Err("missing field `id`".to_string())),
        Action::Report(Some("missing field `id`".to_string()))
    );
}

#[test]
fn a_failed_request_is_reported_without_an_error() {
    assert_eq!(handle_response::<u8, String>(500, Ok(1)), Action::Report(None));
    assert_eq!(
        handle_response::<u8, String>(404, Err("bad".to_string())),
        Action::Report(None)
    );
}

#[test]
fn a_new_fetcher_tracks_nothing() {
    let fetcher = Fetcher::new();
    assert_eq!(fetcher.len(), 0);
    assert!(!fetcher.is_active());
    assert!(!fetcher.tracks(0));
}

#[test]
fn each_method_tracks_a_task_and_hands_its_request_back() {
    let mut fetcher = Fetcher::new();
    let first = fetcher.get("https://h/a");
    assert_eq!(first, Dispatch { ticket: 0, request: plain(Method::Get, "https://h/a", None) });
    let second = fetcher.post("https://h/b", "{}".to_string());
    assert_eq!(
        second,
        Dispatch { ticket: 1, request: plain(Method::Post, "https://h/b", Some("{}")) }
    );
    let third = fetcher.put("https://h/c", "[]".to_string());
    assert_eq!(
        third,
        Dispatch { ticket: 2, request: plain(Method::Put, "https://h/c", Some("[]")) }
    );
    let fourth = fetcher.delete("https://h/d");
    assert_eq!(fourth, Dispatch { ticket: 3, request: plain(Method::Delete, "https://h/d", None) });
    assert_eq!(fetcher.len(), 4);
    assert!(fetcher.is_active());
    for ticket in 0..4 {
        assert!(fetcher.tracks(ticket));
    }
    assert!(!fetcher.tracks(4));
}

#[test]
fn requests_sent_one_at_a_time_never_leave_more_than_one_task() {
    let mut fetcher = Fetcher::new();
    for round in 0..100u16 {
        let sent = fetcher.get("https://h/a");
        assert_eq!(sent.ticket, 0);
        assert_eq!(fetcher.len(), 1);
        assert!(fetcher.is_active());
        let status = [200u16, 401, 408, 500][(round % 4) as usize];
        let _ = fetcher.respond::<u8, String>(sent.ticket, status, Ok(1));
        assert_eq!(fetcher.len(), 1);
        assert!(!fetcher.is_active());
    }
}

#[test]
fn tasks_that_have_ended_are_dropped_when_the_next_request_is_sent() {
    let mut fetcher = Fetcher::new();
    let a = fetcher.get("a");
    let b = fetcher.get("b");
    let c = fetcher.get("c");
    assert_eq!((a.ticket, b.ticket, c.ticket), (0, 1, 2));
    fetcher.finish(b.ticket);
    assert_eq!(fetcher.len(), 3);
    assert!(fetcher.tracks(1));
    let d = fetcher.get("d");
    assert_eq!(d.ticket, 1);
    assert_eq!(fetcher.len(), 3);
    fetcher.finish(a.ticket);
    fetcher.finish(c.ticket);
    fetcher.finish(d.ticket);
    assert_eq!(fetcher.len(), 3);
    assert!(!fetcher.is_active());
    let e = fetcher.get("e");
    assert_eq!(e.ticket, 0);
    assert_eq!(fetcher.len(), 1);
    assert!(fetcher.is_active());
}

#[test]
fn a_ticket_is_the_smallest_one_not_in_use() {
    let mut fetcher = Fetcher::new();
    for expected in 0..5 {
        assert_eq!(fetcher.get("u").ticket, expected);
    }
    fetcher.finish(3);
    fetcher.finish(1);
    assert_eq!(fetcher.get("u").ticket, 1);
    assert_eq!(fetcher.get("u").ticket, 3);
    assert_eq!(fetcher.get("u").ticket, 5);
    assert_eq!(fetcher.len(), 6);
}

#[test]
fn a_response_ends_its_task_and_no_other() {
    let mut fetcher = Fetcher::new();
    let a = fetcher.get("a");
    let b = fetcher.get("b");
    let action = fetcher.respond::<u8, String>(a.ticket, 200, Ok(5));
    assert_eq!(action, Action::Emit(5));
    assert!(fetcher.is_active());
    assert_eq!(fetcher.len(), 2);
    let action = fetcher.respond::<u8, String>(b.ticket, 401, Ok(5));
    assert_eq!(action, Action::Report(None));
    assert!(!fetcher.is_active());
    assert_eq!(fetcher.len(), 2);
}

#[test]
fn a_response_for_an_unknown_ticket_changes_no_task() {
    let mut fetcher = Fetcher::new();
    let a = fetcher.get("a");
    let action = fetcher.respond::<u8, String>(a.ticket + 7, 408, Ok(5));
    assert_eq!(action, Action::Ignore);
    assert!(fetcher.is_active());
    assert_eq!(fetcher.len(), 1);
    fetcher.finish(a.ticket);
    fetcher.finish(a.ticket);
    assert!(!fetcher.is_active());
    assert_eq!(fetcher.len(), 1);
}

#[test]
fn a_task_is_a_ticket_and_a_flag() {
    let task = FetchTask { ticket: 3, active: true };
    let copy = task;
    assert_eq!(task, copy);
    assert_ne!(task, FetchTask { ticket: 3, active: false });
}
