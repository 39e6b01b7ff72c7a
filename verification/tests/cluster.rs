use tiny_rust::cluster::{
    commit_after_fetch, commit_request, create_topic_request, fetch_step, FetchStep, fetch_request, host_to_addr, join_request, next_offset_after,
    parse_assignment, produce_request, take_line, Broker,
};

fn run(b: &mut Broker, fd: i32, line: &str) -> String {
    String::from_utf8(b.handle_command(fd, line.as_bytes(), 1000)).unwrap()
}

#[test]
fn cluster_create_topic_and_list() {
    let mut b = Broker::new();
    assert_eq!(run(&mut b, 5, "CREATE_TOPIC orders 3"), "OK topic created partitions=3\n");
    assert_eq!(run(&mut b, 5, "CREATE_TOPIC orders"), "OK topic already exists\n");
    assert_eq!(run(&mut b, 5, "CREATE_TOPIC logs 9"), "OK topic created partitions=2\n");
    assert_eq!(run(&mut b, 5, "CREATE_TOPIC"), "ERR missing topic name\n");
    let long = format!("CREATE_TOPIC {}", "x".repeat(33));
    assert_eq!(run(&mut b, 5, &long), "ERR topic name too long\n");
    assert_eq!(run(&mut b, 5, "LIST_TOPICS"), "orders partitions=3\nlogs partitions=2\nEND\n");
}

#[test]
fn cluster_max_topics() {
    let mut b = Broker::new();
    for i in 0..8 {
        assert_eq!(run(&mut b, 1, &format!("CREATE_TOPIC t{} 1", i)), "OK topic created partitions=1\n");
    }
    assert_eq!(run(&mut b, 1, "CREATE_TOPIC t8"), "ERR max topics reached\n");
}

#[test]
fn cluster_produce_and_fetch() {
    let mut b = Broker::new();
    run(&mut b, 1, "CREATE_TOPIC t 2");
    // fnv1a("key-0") is odd, fnv1a("key-1") is even
    assert_eq!(run(&mut b, 1, "PRODUCE t key-0 v0"), "OK partition=1 offset=0\n");
    assert_eq!(run(&mut b, 1, "PRODUCE t key-1 v1"), "OK partition=0 offset=0\n");
    assert_eq!(run(&mut b, 1, "PRODUCE t key-2 v2"), "OK partition=1 offset=1\n");
    assert_eq!(run(&mut b, 1, "FETCH t 1 0"), "MSG 0 key-0 v0\nMSG 1 key-2 v2\nEND\n");
    assert_eq!(run(&mut b, 1, "FETCH t 1 1"), "MSG 1 key-2 v2\nEND\n");
    assert_eq!(run(&mut b, 1, "FETCH t 1 0 1"), "MSG 0 key-0 v0\nEND\n");
    assert_eq!(run(&mut b, 1, "FETCH t 2 0"), "ERR invalid partition\n");
    assert_eq!(run(&mut b, 1, "FETCH nope 0 0"), "ERR topic not found\n");
    assert_eq!(run(&mut b, 1, "FETCH t 0"), "ERR usage: FETCH topic partition offset [count]\n");
    assert_eq!(run(&mut b, 1, "PRODUCE t key-0"), "ERR usage: PRODUCE topic key value\n");
    assert_eq!(run(&mut b, 1, "PRODUCE nope k v"), "ERR topic not found\n");
}

#[test]
fn cluster_ring_overwrites_oldest() {
    let mut b = Broker::new();
    run(&mut b, 1, "CREATE_TOPIC r 1");
    for i in 0..65 {
        let expect = format!("OK partition=0 offset={}\n", i);
        assert_eq!(run(&mut b, 1, &format!("PRODUCE r k m{}", i)), expect);
    }
    // message 64 took slot 0, the slot of message 0
    assert_eq!(run(&mut b, 1, "FETCH r 0 0 1"), "MSG 64 k m64\nEND\n");
    assert_eq!(run(&mut b, 1, "FETCH r 0 63 5"), "MSG 64 k m64\nMSG 63 k m63\nEND\n");
}

#[test]
fn cluster_keys_and_values_are_cut() {
    let mut b = Broker::new();
    run(&mut b, 1, "CREATE_TOPIC c 1");
    let key = "k".repeat(40);
    let value = "v".repeat(200);
    run(&mut b, 1, &format!("PRODUCE c {} {}", key, value));
    let expect = format!("MSG 0 {} {}\nEND\n", "k".repeat(32), "v".repeat(128));
    assert_eq!(run(&mut b, 1, "FETCH c 0 0"), expect);
}

#[test]
fn cluster_groups_share_partitions() {
    let mut b = Broker::new();
    run(&mut b, 1, "CREATE_TOPIC t 4");
    assert_eq!(run(&mut b, 10, "JOIN_GROUP g t"), "OK partitions 0,1,2,3\n");
    assert_eq!(run(&mut b, 11, "JOIN_GROUP g t"), "OK partitions 1,3\n");
    assert_eq!(run(&mut b, 12, "JOIN_GROUP g t"), "OK partitions 2\n");
    assert_eq!(b.groups[0].members[0].partitions, vec![0, 3]);
    assert_eq!(run(&mut b, 11, "LEAVE_GROUP g"), "OK left group\n");
    assert_eq!(b.groups[0].members[0].partitions, vec![0, 2]);
    assert_eq!(b.groups[0].members[2].partitions, vec![1, 3]);
    b.on_client_disconnect(10);
    assert_eq!(b.groups[0].members[2].partitions, vec![0, 1, 2, 3]);
    assert_eq!(run(&mut b, 1, "JOIN_GROUP g nope"), "ERR topic not found\n");
    assert_eq!(run(&mut b, 1, "LEAVE_GROUP h"), "ERR group not found\n");
    assert_eq!(run(&mut b, 1, "JOIN_GROUP g"), "ERR usage: JOIN_GROUP group topic\n");
}

#[test]
fn cluster_group_full() {
    let mut b = Broker::new();
    run(&mut b, 1, "CREATE_TOPIC t 1");
    for fd in 0..8 {
        run(&mut b, fd, "JOIN_GROUP g t");
    }
    assert_eq!(run(&mut b, 9, "JOIN_GROUP g t"), "ERR group full\n");
}

#[test]
fn cluster_commit_and_offsets() {
    let mut b = Broker::new();
    run(&mut b, 1, "CREATE_TOPIC t 2");
    run(&mut b, 1, "JOIN_GROUP g t");
    assert_eq!(run(&mut b, 1, "COMMIT g t 1 42"), "OK committed\n");
    assert_eq!(run(&mut b, 1, "COMMIT g t 9 7"), "OK committed\n");
    assert_eq!(run(&mut b, 1, "OFFSETS g t"), "OFFSET 0 0\nOFFSET 1 42\nEND\n");
    assert_eq!(run(&mut b, 1, "OFFSETS h t"), "ERR group not found\n");
    assert_eq!(run(&mut b, 1, "OFFSETS g u"), "ERR topic not found\n");
    assert_eq!(run(&mut b, 1, "COMMIT g t 1"), "ERR usage: COMMIT group topic partition offset\n");
}

#[test]
fn cluster_unknown_and_empty() {
    let mut b = Broker::new();
    assert_eq!(run(&mut b, 1, "HELLO"), "ERR unknown command\n");
    assert_eq!(run(&mut b, 1, "   "), "");
    assert_eq!(run(&mut b, 1, "\tLIST_TOPICS\r"), "END\n");
}

#[test]
fn cluster_client_requests() {
    assert_eq!(create_topic_request(b"t"), b"CREATE_TOPIC t 2\n".to_vec());
    assert_eq!(produce_request(b"t", 6), b"PRODUCE t key-2 value-6\n".to_vec());
    assert_eq!(join_request(b"g", b"t"), b"JOIN_GROUP g t\n".to_vec());
    assert_eq!(fetch_request(b"t", 3, 17), b"FETCH t 3 17 10\n".to_vec());
    assert_eq!(commit_request(b"g", b"t", 3, 18), b"COMMIT g t 3 18\n".to_vec());
    let long = vec![b'x'; 300];
    assert_eq!(join_request(&long, b"t").len(), 256);
}

#[test]
fn cluster_parse_answers() {
    assert_eq!(parse_assignment(b"OK partitions 0,2"), vec![0, 2]);
    assert_eq!(parse_assignment(b"OK partitions "), Vec::<u64>::new());
    assert_eq!(parse_assignment(b"OK partitions 1,2,3,0,1"), vec![1, 2, 3, 0]);
    assert_eq!(parse_assignment(b"ERR group full"), Vec::<u64>::new());
    assert_eq!(next_offset_after(0, b"MSG 5 k v"), 6);
    assert_eq!(next_offset_after(9, b"MSG 5 k v"), 9);
    assert_eq!(next_offset_after(3, b"END"), 3);
}

#[test]
fn cluster_host_to_addr() {
    assert_eq!(host_to_addr(b"127.0.0.1"), 0x0100_007f);
    assert_eq!(host_to_addr(b"10.1.2.3"), 0x0302_010a);
    assert_eq!(host_to_addr(b""), 0);
    assert_eq!(host_to_addr(b"300.0.0.1"), 0x0100_002c);
    assert_eq!(host_to_addr(b"1.2.3.4.5"), 0x0403_0201);
    assert_eq!(host_to_addr(b"1x.2"), 0x0000_0201);
}

#[test]
fn cluster_take_line() {
    let mut buf = b"PRODUCE a k v\nLIST".to_vec();
    assert_eq!(take_line(&mut buf), Some(b"PRODUCE a k v".to_vec()));
    assert_eq!(buf, b"LIST".to_vec());
    assert_eq!(take_line(&mut buf), None);
    assert_eq!(buf, b"LIST".to_vec());
    let mut buf = b"\n\nX".to_vec();
    assert_eq!(take_line(&mut buf), Some(Vec::new()));
    assert_eq!(take_line(&mut buf), Some(Vec::new()));
    assert_eq!(buf, b"X".to_vec());
}

#[test]
fn cluster_consumer_steps() {
    assert!(matches!(fetch_step(3, b"END"), FetchStep::Done));
    assert!(matches!(fetch_step(3, b"MSG 7 k v"), FetchStep::Show(8)));
    assert!(matches!(fetch_step(9, b"MSG 7 k v"), FetchStep::Show(9)));
    assert!(matches!(fetch_step(3, b"ENDX"), FetchStep::Show(3)));
    assert_eq!(commit_after_fetch(b"g", b"t", 1, 3, 8), Some(b"COMMIT g t 1 8\n".to_vec()));
    assert_eq!(commit_after_fetch(b"g", b"t", 1, 8, 8), None);
}
