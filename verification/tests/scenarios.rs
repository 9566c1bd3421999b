use message_log::codec::Message;
use message_log::consume;
use message_log::consume::{assemble, Page};
use message_log::produce;
use message_log::reply::Reply;
use std::collections::BTreeMap;

/// A counter service and an object store held in memory, and the loops that
/// a caller runs around the two handlers.
struct World {
    counters: BTreeMap<String, i64>,
    objects: BTreeMap<String, Vec<u8>>,
    clock: u128,
    unreadable: Vec<String>,
}

impl World {
    fn new() -> World {
        World {
            counters: BTreeMap::new(),
            objects: BTreeMap::new(),
            clock: 1700000000000,
            unreadable: Vec::new(),
        }
    }

    fn produce(&mut self, topic: &str, payload: &str) -> Reply {
        let mut state = produce::State::Start;
        let mut event = produce::Event::Request {
            topic: topic.to_string(),
            body: produce::Body::Payload { json: payload.as_bytes().to_vec() },
        };
        loop {
            let (next, action) = produce::handle(state, event);
            state = next;
            event = match action {
                produce::Action::Allocate(update) => {
                    let counter = self.counters.entry(update.key).or_insert(0);
                    *counter += 1;
                    self.clock += 1;
                    produce::Event::Allocated {
                        counter: Some(counter.to_string()),
                        now_millis: self.clock,
                    }
                },
                produce::Action::Put { key, bytes } => {
                    self.objects.insert(key, bytes);
                    produce::Event::Written
                },
                produce::Action::Respond(reply) => return reply,
                produce::Action::Fail(error) => panic!("produce failed: {:?}", error),
            };
        }
    }

    fn consume(&self, topic: &str, offset: Option<&str>, limit: Option<&str>) -> Reply {
        let mut state = consume::State::Start;
        let mut event = consume::Event::Request {
            topic: topic.to_string(),
            offset: offset.map(|s| s.to_string()),
            limit: limit.map(|s| s.to_string()),
        };
        loop {
            let (next, action) = consume::handle(state, event);
            state = next;
            event = match action {
                consume::Action::List(listing) => {
                    let keys: Vec<String> = self
                        .objects
                        .keys()
                        .filter(|k| k.starts_with(&listing.prefix))
                        .filter(|k| match &listing.start_after {
                            Some(after) => k.as_str() > after.as_str(),
                            None => true,
                        })
                        .take(listing.max_keys as usize)
                        .cloned()
                        .collect();
                    consume::Event::Listed { keys }
                },
                consume::Action::Fetch { keys, concurrency } => {
                    assert_eq!(concurrency, 10);
                    // Completions arrive in no particular order: here, last key first.
                    let bodies = keys
                        .iter()
                        .rev()
                        .map(|k| {
                            if self.unreadable.contains(k) {
                                None
                            } else {
                                self.objects.get(k).cloned()
                            }
                        })
                        .collect();
                    consume::Event::Fetched { bodies }
                },
                consume::Action::Respond(reply) => return reply,
                consume::Action::Fail(error) => panic!("consume failed: {:?}", error),
            };
        }
    }
}

fn text(reply: &Reply) -> String {
    String::from_utf8(reply.body.clone()).unwrap()
}

#[test]
fn three_messages_produced_then_consumed() {
    let mut world = World::new();
    let first = world.produce("orders", "{\"id\":1}");
    let second = world.produce("orders", "{\"id\":2}");
    let third = world.produce("orders", "{\"id\":3}");
    assert_eq!(text(&first), "{\"topic\":\"orders\",\"offset\":1}");
    assert_eq!(text(&second), "{\"topic\":\"orders\",\"offset\":2}");
    assert_eq!(text(&third), "{\"topic\":\"orders\",\"offset\":3}");
    assert_eq!((first.status, second.status, third.status), (200, 200, 200));

    let reply = world.consume("orders", Some("1"), Some("10"));
    assert_eq!(reply.status, 200);
    assert_eq!(
        text(&reply),
        "{\"messages\":[\
         {\"offset\":1,\"payload\":{\"id\":1},\"timestamp\":1700000000001},\
         {\"offset\":2,\"payload\":{\"id\":2},\"timestamp\":1700000000002},\
         {\"offset\":3,\"payload\":{\"id\":3},\"timestamp\":1700000000003}],\
         \"next_offset\":4}"
    );
}

#[test]
fn consume_from_offset_two_with_limit_one() {
    let mut world = World::new();
    world.produce("orders", "{\"id\":1}");
    world.produce("orders", "{\"id\":2}");
    world.produce("orders", "{\"id\":3}");
    let reply = world.consume("orders", Some("2"), Some("1"));
    assert_eq!(
        text(&reply),
        "{\"messages\":[{\"offset\":2,\"payload\":{\"id\":2},\"timestamp\":1700000000002}],\
         \"next_offset\":3}"
    );
}

#[test]
fn consume_follows_its_cursor_to_the_end() {
    let mut world = World::new();
    for i in 1..=25 {
        world.produce("orders", &i.to_string());
    }
    let first = world.consume("orders", None, None);
    let value: serde_json::Value = serde_json::from_slice(&first.body).unwrap();
    assert_eq!(value.get("messages").and_then(|m| m.as_array()).map(|a| a.len()), Some(10));
    assert_eq!(value.get("next_offset").and_then(|n| n.as_i64()), Some(11));
    let second = world.consume("orders", Some("11"), Some("500"));
    let value: serde_json::Value = serde_json::from_slice(&second.body).unwrap();
    assert_eq!(value.get("messages").and_then(|m| m.as_array()).map(|a| a.len()), Some(15));
    assert_eq!(value.get("next_offset").and_then(|n| n.as_i64()), Some(26));
    let third = world.consume("orders", Some("26"), None);
    assert_eq!(text(&third), "{\"messages\":[],\"next_offset\":26}");
}

#[test]
fn consume_of_an_empty_topic_does_not_move_the_cursor() {
    let mut world = World::new();
    world.produce("orders", "1");
    assert_eq!(
        text(&world.consume("invoices", None, None)),
        "{\"messages\":[],\"next_offset\":1}"
    );
    assert_eq!(
        text(&world.consume("invoices", Some("40"), None)),
        "{\"messages\":[],\"next_offset\":40}"
    );
}

#[test]
fn topics_have_offsets_of_their_own() {
    let mut world = World::new();
    assert_eq!(text(&world.produce("a", "1")), "{\"topic\":\"a\",\"offset\":1}");
    assert_eq!(text(&world.produce("b", "1")), "{\"topic\":\"b\",\"offset\":1}");
    assert_eq!(text(&world.produce("a", "2")), "{\"topic\":\"a\",\"offset\":2}");
    assert_eq!(
        text(&world.consume("b", None, None)),
        "{\"messages\":[{\"offset\":1,\"payload\":1,\"timestamp\":1700000000002}],\
         \"next_offset\":2}"
    );
}

#[test]
fn one_of_two_bodies_corrupted() {
    let mut world = World::new();
    world.produce("orders", "{\"id\":1}");
    world.produce("orders", "{\"id\":2}");
    world
        .objects
        .insert("topics/orders/00000000000000000001".to_string(), b"{\"offset\":1,".to_vec());
    let reply = world.consume("orders", None, None);
    assert_eq!(
        text(&reply),
        "{\"messages\":[{\"offset\":2,\"payload\":{\"id\":2},\"timestamp\":1700000000002}],\
         \"next_offset\":3}"
    );
}

#[test]
fn one_of_two_fetches_failed() {
    let mut world = World::new();
    world.produce("orders", "{\"id\":1}");
    world.produce("orders", "{\"id\":2}");
    world.unreadable.push("topics/orders/00000000000000000002".to_string());
    let reply = world.consume("orders", None, None);
    assert_eq!(
        text(&reply),
        "{\"messages\":[{\"offset\":1,\"payload\":{\"id\":1},\"timestamp\":1700000000001}],\
         \"next_offset\":2}"
    );
}

#[test]
fn hole_left_by_a_failed_write_is_stepped_over() {
    let mut world = World::new();
    world.produce("orders", "1");
    world.produce("orders", "2");
    world.produce("orders", "3");
    world.objects.remove("topics/orders/00000000000000000002");
    let page = {
        let bodies = vec![
            world.objects.get("topics/orders/00000000000000000003").cloned(),
            world.objects.get("topics/orders/00000000000000000001").cloned(),
        ];
        assemble(1, &bodies)
    };
    assert_eq!(
        page,
        Page {
            messages: vec![
                Message { offset: 1, payload: b"1".to_vec(), timestamp: 1700000000001 },
                Message { offset: 3, payload: b"3".to_vec(), timestamp: 1700000000003 },
            ],
            next_offset: 4,
        }
    );
}
