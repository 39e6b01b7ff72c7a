use tiny_rust::broker::Broker;

fn req(b: &mut Broker, line: &str) -> String {
    match b.handle_request(line.as_bytes()) {
        Some((_, r)) => String::from_utf8(r).unwrap(),
        None => "<none>".to_string(),
    }
}

#[test]
fn broker_create_produce_consume() {
    let mut b = Broker::new();
    assert_eq!(req(&mut b, "CREATE_TOPIC t 2\n"), "OK topic created with 2 partition(s)\n");
    assert_eq!(req(&mut b, "CREATE_TOPIC t\n"), "ERR topic already exists\n");
    assert_eq!(req(&mut b, "CREATE_TOPIC u 9"), "OK topic created with 4 partition(s)\n");
    assert_eq!(req(&mut b, "CREATE_TOPIC v 0"), "OK topic created with 1 partition(s)\n");
    assert_eq!(req(&mut b, "PRODUCE t hello world\r\n"), "OK partition=0 offset=0\n");
    assert_eq!(req(&mut b, "PRODUCE t second"), "OK partition=1 offset=0\n");
    assert_eq!(req(&mut b, "PRODUCE t third"), "OK partition=0 offset=1\n");
    assert_eq!(req(&mut b, "CONSUME t 0 0 5"), "MSG 0 hello world\nMSG 1 third\nEND\n");
    assert_eq!(req(&mut b, "CONSUME t 0 1"), "MSG 1 third\nEND\n");
    assert_eq!(req(&mut b, "CONSUME t 3 0"), "ERR invalid partition\n");
    assert_eq!(req(&mut b, "CONSUME x 0 0"), "ERR topic not found\n");
    assert_eq!(req(&mut b, "CONSUME t 0"), "ERR missing offset\n");
    assert_eq!(req(&mut b, "PRODUCE t"), "ERR missing message\n");
    assert_eq!(req(&mut b, "PRODUCE"), "ERR missing topic\n");
    assert_eq!(req(&mut b, "LIST_TOPICS"), "TOPIC t 2\nTOPIC u 4\nTOPIC v 1\nEND\n");
    assert_eq!(req(&mut b, "STATS"), "OK topics=3 messages=3 consumer_offsets=0\n");
    assert_eq!(req(&mut b, "\r\n"), "<none>");
    assert_eq!(req(&mut b, "NOPE"), "ERR unknown command\n");
}

#[test]
fn broker_eviction() {
    let mut b = Broker::new();
    req(&mut b, "CREATE_TOPIC e");
    for i in 0..65 {
        req(&mut b, &format!("PRODUCE e m{}", i));
    }
    assert_eq!(req(&mut b, "CONSUME e 0 0"), "ERR message at offset 0 was evicted\nEND\n");
    assert_eq!(req(&mut b, "CONSUME e 0 63 3"), "MSG 63 m63\nMSG 64 m64\nEND\n");
}

#[test]
fn broker_groups_poll_commit() {
    let mut b = Broker::new();
    req(&mut b, "CREATE_TOPIC t 2");
    req(&mut b, "PRODUCE t a");
    req(&mut b, "PRODUCE t b");
    req(&mut b, "PRODUCE t c");
    assert_eq!(req(&mut b, "POLL g t"), "ERR no messages available\n");
    assert_eq!(req(&mut b, "SUBSCRIBE g t"), "OK subscribed g to t\n");
    assert_eq!(req(&mut b, "POLL g t"), "MSG partition=0 offset=0 a\n");
    assert_eq!(req(&mut b, "POLL g t"), "MSG partition=1 offset=0 b\n");
    assert_eq!(req(&mut b, "POLL g t"), "MSG partition=0 offset=1 c\n");
    assert_eq!(req(&mut b, "POLL g t"), "ERR no messages available\n");
    assert_eq!(req(&mut b, "COMMIT g t 1 0"), "OK committed\n");
    assert_eq!(req(&mut b, "POLL g t"), "MSG partition=1 offset=0 b\n");
    assert_eq!(req(&mut b, "COMMIT g t 5 0"), "ERR invalid partition\n");
    assert_eq!(req(&mut b, "COMMIT g t 1"), "ERR missing offset\n");
    assert_eq!(req(&mut b, "STATS"), "OK topics=1 messages=3 consumer_offsets=2\n");
}

#[test]
fn broker_consume_after_produce_through_ring() {
    let mut b = Broker::new();
    assert_eq!(req(&mut b, "CREATE_TOPIC r 1"), "OK topic created with 1 partition(s)\n");
    for i in 0..65 {
        let line = format!("PRODUCE r m{}", i);
        assert_eq!(req(&mut b, &line), format!("OK partition=0 offset={}\n", i));
        assert_eq!(req(&mut b, &format!("CONSUME r 0 {}", i)), format!("MSG {} m{}\nEND\n", i, i));
    }
    assert_eq!(req(&mut b, "CONSUME r 0 0"), "ERR message at offset 0 was evicted\nEND\n");
    assert_eq!(req(&mut b, "CONSUME r 0 1 2"), "MSG 1 m1\nMSG 2 m2\nEND\n");
}
