use tiny_rust::pubsub::{argv1_is_sub, Publisher, Write, MAX_SUBSCRIBERS};

fn pairs(ws: &[Write]) -> Vec<(i32, String)> {
    ws.iter().map(|w| (w.fd, String::from_utf8(w.data.clone()).unwrap())).collect()
}

#[test]
fn connect_then_subscribe() {
    let mut p = Publisher::new();
    let (ws, ok) = p.on_connect(5);
    assert!(ok);
    assert_eq!(
        pairs(&ws),
        vec![(5, "OK connected\n".to_string()), (1, "tiny-kafka: new client connected\n".to_string())]
    );
    let ws = p.on_read(0, b"SUBSCRIBE news\n");
    assert_eq!(
        pairs(&ws),
        vec![
            (5, "OK subscribed\n".to_string()),
            (1, "tiny-kafka: client subscribed filter=news\n".to_string())
        ]
    );
    assert!(p.subscribers[0].subscribed);
    assert_eq!(p.subscribers[0].filter, b"news".to_vec());
}

#[test]
fn publish_reaches_matching_prefix_only() {
    let mut p = Publisher::new();
    p.on_connect(5);
    p.on_connect(6);
    p.on_connect(7);
    p.on_read(0, b"SUBSCRIBE news");
    p.on_read(2, b"SUBSCRIBE sport\r\n");
    let ws = p.on_read(1, b"PUBLISH news.world hello there\r\n");
    assert_eq!(
        pairs(&ws),
        vec![
            (5, "MSG news.world 0 hello there\n".to_string()),
            (6, "OK published 1\n".to_string()),
            (1, "tiny-kafka: published to 1 subscriber(s) topic=news.world\n".to_string())
        ]
    );
    let ws = p.on_read(1, b"PUBLISH weather sunny\n");
    assert_eq!(ws.len(), 2);
    assert_eq!(pairs(&ws)[0], (6, "OK published 0\n".to_string()));
}

#[test]
fn empty_filter_matches_everything() {
    let mut p = Publisher::new();
    p.on_connect(5);
    p.on_connect(6);
    let ws = p.on_read(0, b"SUBSCRIBE\n");
    assert_eq!(pairs(&ws)[1], (1, "tiny-kafka: client subscribed\n".to_string()));
    p.on_read(1, b"SUBSCRIBE \n");
    let ws = p.broadcast(b"anything", b"x");
    assert_eq!(pairs(&ws), vec![(5, "MSG anything 0 x\n".to_string()), (6, "MSG anything 0 x\n".to_string())]);
}

#[test]
fn several_lines_in_one_chunk() {
    let mut p = Publisher::new();
    p.on_connect(9);
    let ws = p.on_read(0, b"SUBSCRIBE a\n\nPUBLISH ab hi\nBOGUS");
    assert_eq!(
        pairs(&ws),
        vec![
            (9, "OK subscribed\n".to_string()),
            (1, "tiny-kafka: client subscribed filter=a\n".to_string()),
            (9, "MSG ab 0 hi\n".to_string()),
            (9, "OK published 1\n".to_string()),
            (1, "tiny-kafka: published to 1 subscriber(s) topic=ab\n".to_string()),
            (9, "ERR unknown command\n".to_string())
        ]
    );
}

#[test]
fn bad_publish_and_unknown() {
    let mut p = Publisher::new();
    p.on_connect(4);
    assert_eq!(pairs(&p.handle_command(0, b"PUBLISH topic")), vec![(4, "ERR bad publish\n".to_string())]);
    assert_eq!(pairs(&p.handle_command(0, b"PUBLISH  msg")), vec![(4, "ERR bad publish\n".to_string())]);
    assert_eq!(pairs(&p.handle_command(0, b"SUBSCRIBEX")), vec![(4, "ERR unknown command\n".to_string())]);
    assert!(p.handle_command(0, b"\r").is_empty());
}

#[test]
fn long_filter_is_cut() {
    let mut p = Publisher::new();
    p.on_connect(4);
    let long = [b'x'; 40];
    let mut line = b"SUBSCRIBE ".to_vec();
    line.extend_from_slice(&long);
    p.handle_command(0, &line);
    assert_eq!(p.subscribers[0].filter.len(), 32);
}

#[test]
fn full_hub_refuses_and_slots_come_back() {
    let mut p = Publisher::new();
    for fd in 0..MAX_SUBSCRIBERS as i32 {
        assert!(p.on_connect(100 + fd).1);
    }
    let (ws, ok) = p.on_connect(200);
    assert!(!ok);
    assert_eq!(pairs(&ws), vec![(200, "ERR max subscribers\n".to_string())]);
    assert_eq!(p.remove_subscriber(3), Some(103));
    assert_eq!(p.remove_subscriber(3), None);
    assert_eq!(p.remove_subscriber(99), None);
    assert_eq!(p.poll_set().len(), MAX_SUBSCRIBERS - 1);
    assert!(p.add_subscriber(300));
    assert_eq!(p.subscribers[3].fd, 300);
}

#[test]
fn subscriber_mode_from_cmdline() {
    assert!(argv1_is_sub(b"tiny-kafka\0sub\0"));
    assert!(argv1_is_sub(b"tiny-kafka\0sub"));
    assert!(!argv1_is_sub(b"tiny-kafka\0pub\0"));
    assert!(!argv1_is_sub(b"tiny-kafka\0"));
    assert!(!argv1_is_sub(b""));
    assert!(!argv1_is_sub(b"tiny-kafka\0subscriber\0"));
}
