use message_log::codec::{encode, Message};
use message_log::consume::{
    assemble, handle, page_limit, page_reply, plan_listing, read_fetched, start_offset, Action,
    ConsumeError, Event, FetchError, Listing, Page, State, DEFAULT_LIMIT, DEFAULT_START,
    MAX_CONCURRENT_READS, MAX_LIMIT,
};
use message_log::reply::Reply;

fn message(offset: i64, payload: &str, timestamp: u128) -> Message {
    Message { offset, payload: payload.as_bytes().to_vec(), timestamp }
}

fn stored(offset: i64, payload: &str, timestamp: u128) -> Option<Vec<u8>> {
    Some(encode(&message(offset, payload, timestamp)))
}

#[test]
fn constants_are_the_documented_ones() {
    assert_eq!(DEFAULT_START, 1);
    assert_eq!(DEFAULT_LIMIT, 10);
    assert_eq!(MAX_LIMIT, 100);
    assert_eq!(MAX_CONCURRENT_READS, 10);
}

#[test]
fn start_offset_defaults_to_one() {
    assert_eq!(start_offset(None), 1);
    assert_eq!(start_offset(Some("")), 1);
    assert_eq!(start_offset(Some("abc")), 1);
    assert_eq!(start_offset(Some("1.5")), 1);
    assert_eq!(start_offset(Some("9223372036854775808")), 1);
}

#[test]
fn start_offset_takes_any_integer() {
    assert_eq!(start_offset(Some("5")), 5);
    assert_eq!(start_offset(Some("+5")), 5);
    assert_eq!(start_offset(Some("0")), 0);
    assert_eq!(start_offset(Some("-3")), -3);
    assert_eq!(start_offset(Some("9223372036854775807")), i64::MAX);
}

#[test]
fn limit_defaults_to_ten() {
    assert_eq!(page_limit(None), 10);
    assert_eq!(page_limit(Some("")), 10);
    assert_eq!(page_limit(Some("many")), 10);
    assert_eq!(page_limit(Some("2147483648")), 10);
}

#[test]
fn limit_of_500_is_clamped_to_100() {
    assert_eq!(page_limit(Some("500")), 100);
    assert_eq!(page_limit(Some("101")), 100);
    assert_eq!(page_limit(Some("2147483647")), 100);
    let listing = plan_listing("orders", 1, page_limit(Some("500")));
    assert_eq!(listing.max_keys, 100);
    assert_eq!(plan_listing("orders", 1, 500).max_keys, 100);
}

#[test]
fn limit_up_to_100_is_kept() {
    assert_eq!(page_limit(Some("100")), 100);
    assert_eq!(page_limit(Some("1")), 1);
    assert_eq!(page_limit(Some("0")), 0);
    assert_eq!(page_limit(Some("-5")), -5);
}

#[test]
fn listing_from_the_first_offset_has_no_cursor() {
    assert_eq!(
        plan_listing("orders", 1, 10),
        Listing { prefix: "topics/orders/".to_string(), start_after: None, max_keys: 10 }
    );
    assert_eq!(plan_listing("orders", 0, 10).start_after, None);
    assert_eq!(plan_listing("orders", -7, 10).start_after, None);
    assert_eq!(plan_listing("orders", i64::MIN, 10).start_after, None);
}

#[test]
fn listing_from_a_later_offset_starts_after_the_key_before() {
    assert_eq!(
        plan_listing("orders", 2, 1),
        Listing {
            prefix: "topics/orders/".to_string(),
            start_after: Some("topics/orders/00000000000000000001".to_string()),
            max_keys: 1,
        }
    );
    assert_eq!(
        plan_listing("orders", i64::MAX, 1).start_after,
        Some("topics/orders/09223372036854775806".to_string())
    );
}

#[test]
fn fetch_gives_the_message_or_says_why_not() {
    assert_eq!(read_fetched(&stored(3, "{}", 9)), Ok(message(3, "{}", 9)));
    assert_eq!(read_fetched(&None), Err(FetchError::StorageReadFailed));
    assert_eq!(read_fetched(&Some(b"{\"offset\":3".to_vec())), Err(FetchError::MalformedMessage));
    assert_eq!(
        read_fetched(&Some(b"{\"offset\":3,\"payload\":nope,\"timestamp\":9}".to_vec())),
        Err(FetchError::MalformedMessage)
    );
    assert_eq!(read_fetched(&Some(Vec::new())), Err(FetchError::MalformedMessage));
}

#[test]
fn empty_topic_leaves_the_cursor() {
    for start in [1i64, 5, 0, -2, i64::MAX] {
        assert_eq!(assemble(start, &vec![]), Page { messages: vec![], next_offset: start });
    }
}

#[test]
fn all_fetches_failed_leaves_the_cursor() {
    let bodies = vec![None, Some(b"corrupted".to_vec()), None];
    assert_eq!(assemble(4, &bodies), Page { messages: vec![], next_offset: 4 });
}

#[test]
fn messages_are_sorted_whatever_the_arrival_order() {
    let arrivals: [[i64; 3]; 6] =
        [[1, 2, 3], [1, 3, 2], [2, 1, 3], [2, 3, 1], [3, 1, 2], [3, 2, 1]];
    for order in arrivals {
        let bodies: Vec<Option<Vec<u8>>> = order
            .iter()
            .map(|o| stored(*o, &format!("{{\"id\":{}}}", o), 1000 + *o as u128))
            .collect();
        let page = assemble(1, &bodies);
        assert_eq!(
            page,
            Page {
                messages: vec![
                    message(1, "{\"id\":1}", 1001),
                    message(2, "{\"id\":2}", 1002),
                    message(3, "{\"id\":3}", 1003),
                ],
                next_offset: 4,
            }
        );
    }
}

#[test]
fn many_messages_come_out_ascending() {
    let mut bodies = Vec::new();
    let mut offset: i64 = 37;
    for _ in 0..100 {
        bodies.push(stored(offset, "0", 1));
        offset = (offset * 31 + 7) % 1009;
    }
    let page = assemble(1, &bodies);
    assert_eq!(page.messages.len(), 100);
    for pair in page.messages.windows(2) {
        assert!(pair[0].offset <= pair[1].offset);
    }
    assert_eq!(page.next_offset, page.messages.last().unwrap().offset + 1);
}

#[test]
fn single_message_advances_the_cursor_by_one() {
    let page = assemble(2, &vec![stored(2, "{\"id\":2}", 5)]);
    assert_eq!(page, Page { messages: vec![message(2, "{\"id\":2}", 5)], next_offset: 3 });
}

#[test]
fn corrupted_body_is_left_out() {
    let bodies = vec![Some(b"{\"offset\":1,\"payl".to_vec()), stored(2, "{\"id\":2}", 5)];
    let page = assemble(1, &bodies);
    assert_eq!(page, Page { messages: vec![message(2, "{\"id\":2}", 5)], next_offset: 3 });
    let bodies = vec![stored(1, "{\"id\":1}", 5), Some(b"\x00\x01".to_vec())];
    let page = assemble(1, &bodies);
    assert_eq!(page, Page { messages: vec![message(1, "{\"id\":1}", 5)], next_offset: 2 });
}

#[test]
fn failed_fetch_is_left_out() {
    let bodies = vec![stored(3, "3", 5), None, stored(1, "1", 5)];
    let page = assemble(1, &bodies);
    assert_eq!(
        page,
        Page { messages: vec![message(1, "1", 5), message(3, "3", 5)], next_offset: 4 }
    );
}

#[test]
fn cursor_goes_by_the_survivors_not_by_the_start() {
    let page = assemble(1, &vec![stored(40, "0", 5), stored(30, "0", 5)]);
    assert_eq!(page.next_offset, 41);
}

#[test]
fn equal_offsets_keep_their_arrival_order() {
    let bodies = vec![
        stored(2, "\"b\"", 1),
        stored(1, "\"x\"", 1),
        stored(2, "\"a\"", 2),
        stored(1, "\"y\"", 2),
        stored(2, "\"c\"", 3),
    ];
    let page = assemble(1, &bodies);
    assert_eq!(
        page.messages,
        vec![
            message(1, "\"x\"", 1),
            message(1, "\"y\"", 2),
            message(2, "\"b\"", 1),
            message(2, "\"a\"", 2),
            message(2, "\"c\"", 3),
        ]
    );
    assert_eq!(page.next_offset, 3);
}

#[test]
fn cursor_stays_within_i64() {
    let page = assemble(1, &vec![stored(i64::MAX, "0", 5)]);
    assert_eq!(page.next_offset, i64::MAX);
    let page = assemble(1, &vec![stored(i64::MAX - 1, "0", 5)]);
    assert_eq!(page.next_offset, i64::MAX);
    let page = assemble(1, &vec![stored(-9, "0", 5)]);
    assert_eq!(page.next_offset, -8);
}

#[test]
fn reply_of_an_empty_page() {
    let reply = page_reply(&Page { messages: vec![], next_offset: 1 });
    assert_eq!(
        reply,
        Reply { status: 200, json: true, body: b"{\"messages\":[],\"next_offset\":1}".to_vec() }
    );
}

#[test]
fn reply_lists_the_messages_as_stored() {
    let page = Page {
        messages: vec![message(1, "{\"id\":1}", 10), message(2, "[2]", 20)],
        next_offset: 3,
    };
    let reply = page_reply(&page);
    assert_eq!(reply.status, 200);
    assert!(reply.json);
    assert_eq!(
        String::from_utf8(reply.body.clone()).unwrap(),
        "{\"messages\":[{\"offset\":1,\"payload\":{\"id\":1},\"timestamp\":10},\
         {\"offset\":2,\"payload\":[2],\"timestamp\":20}],\"next_offset\":3}"
    );
    let value: serde_json::Value = serde_json::from_slice(&reply.body).unwrap();
    assert_eq!(value.get("messages").and_then(|m| m.as_array()).map(|a| a.len()), Some(2));
    assert_eq!(value.get("next_offset").and_then(|n| n.as_i64()), Some(3));
}

#[test]
fn reply_of_one_message_has_no_comma() {
    let page = Page { messages: vec![message(7, "null", 1)], next_offset: 8 };
    assert_eq!(
        String::from_utf8(page_reply(&page).body).unwrap(),
        "{\"messages\":[{\"offset\":7,\"payload\":null,\"timestamp\":1}],\"next_offset\":8}"
    );
}

fn request(topic: &str, offset: Option<&str>, limit: Option<&str>) -> Event {
    Event::Request {
        topic: topic.to_string(),
        offset: offset.map(|s| s.to_string()),
        limit: limit.map(|s| s.to_string()),
    }
}

#[test]
fn read_begins_with_a_listing() {
    let (state, action) = handle(State::Start, request("orders", Some("2"), Some("1")));
    assert_eq!(state, State::Listing { start_offset: 2 });
    assert_eq!(
        action,
        Action::List(Listing {
            prefix: "topics/orders/".to_string(),
            start_after: Some("topics/orders/00000000000000000001".to_string()),
            max_keys: 1,
        })
    );
}

#[test]
fn read_without_parameters_lists_ten_from_the_start() {
    let (state, action) = handle(State::Start, request("orders", None, None));
    assert_eq!(state, State::Listing { start_offset: 1 });
    assert_eq!(
        action,
        Action::List(Listing {
            prefix: "topics/orders/".to_string(),
            start_after: None,
            max_keys: 10,
        })
    );
}

#[test]
fn read_clamps_the_limit_before_listing() {
    let (_, action) = handle(State::Start, request("orders", None, Some("500")));
    match action {
        Action::List(listing) => assert_eq!(listing.max_keys, 100),
        other => panic!("unexpected action {:?}", other),
    }
}

#[test]
fn empty_listing_is_answered_at_once() {
    let (state, action) =
        handle(State::Listing { start_offset: 6 }, Event::Listed { keys: vec![] });
    assert_eq!(state, State::Done);
    assert_eq!(
        action,
        Action::Respond(Reply {
            status: 200,
            json: true,
            body: b"{\"messages\":[],\"next_offset\":6}".to_vec(),
        })
    );
}

#[test]
fn listed_keys_are_fetched_ten_at_a_time() {
    let keys = vec![
        "topics/orders/00000000000000000001".to_string(),
        "topics/orders/00000000000000000002".to_string(),
    ];
    let (state, action) =
        handle(State::Listing { start_offset: 1 }, Event::Listed { keys: keys.clone() });
    assert_eq!(state, State::Fetching { start_offset: 1 });
    assert_eq!(action, Action::Fetch { keys, concurrency: 10 });
}

#[test]
fn failed_listing_fails_the_read() {
    let (state, action) = handle(State::Listing { start_offset: 1 }, Event::ListFailed);
    assert_eq!(state, State::Done);
    assert_eq!(action, Action::Fail(ConsumeError::ListingFailed));
}

#[test]
fn fetched_bodies_are_answered_in_order() {
    let bodies = vec![stored(2, "{\"id\":2}", 20), None, stored(1, "{\"id\":1}", 10)];
    let (state, action) = handle(State::Fetching { start_offset: 1 }, Event::Fetched { bodies });
    assert_eq!(state, State::Done);
    match action {
        Action::Respond(reply) => {
            assert_eq!(reply.status, 200);
            assert!(reply.json);
            assert_eq!(
                String::from_utf8(reply.body).unwrap(),
                "{\"messages\":[{\"offset\":1,\"payload\":{\"id\":1},\"timestamp\":10},\
                 {\"offset\":2,\"payload\":{\"id\":2},\"timestamp\":20}],\"next_offset\":3}"
            );
        },
        other => panic!("unexpected action {:?}", other),
    }
}

#[test]
fn fetched_bodies_that_all_fail_leave_the_cursor() {
    let bodies = vec![None, Some(b"{}".to_vec())];
    let (_, action) = handle(State::Fetching { start_offset: 9 }, Event::Fetched { bodies });
    assert_eq!(
        action,
        Action::Respond(Reply {
            status: 200,
            json: true,
            body: b"{\"messages\":[],\"next_offset\":9}".to_vec(),
        })
    );
}

#[test]
fn event_out_of_turn_fails_the_read() {
    let cases = vec![
        (State::Start, Event::ListFailed),
        (State::Start, Event::Listed { keys: vec![] }),
        (State::Start, Event::Fetched { bodies: vec![] }),
        (State::Listing { start_offset: 1 }, request("orders", None, None)),
        (State::Listing { start_offset: 1 }, Event::Fetched { bodies: vec![] }),
        (State::Fetching { start_offset: 1 }, Event::Listed { keys: vec![] }),
        (State::Fetching { start_offset: 1 }, Event::ListFailed),
        (State::Done, request("orders", None, None)),
        (State::Done, Event::Fetched { bodies: vec![] }),
    ];
    for (state, event) in cases {
        assert_eq!(handle(state, event), (State::Done, Action::Fail(ConsumeError::OutOfTurn)));
    }
}
