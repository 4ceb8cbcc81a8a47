use chainsaw::bus::{
    receiving_channels, topic_matches, worker_replay, worker_step, WorkerAction, WorkerState,
};
use chainsaw::config::Config;
use chainsaw::log::{frame_record, read_records, Appender};

#[test]
fn topics_match_by_prefix() {
    assert!(topic_matches(b"orders", b"orders"));
    assert!(topic_matches(b"orders", b""));
    assert!(!topic_matches(b"order", b"orders"));
    assert!(!topic_matches(b"xorders", b"orders"));
}

#[test]
fn prefix_subscription_hazard() {
    // a worker subscribed to channel "orders" also receives a message
    // published under topic "ordersclosed": subscription is a prefix match,
    // so channel names must not be prefixes of one another
    assert!(topic_matches(b"ordersclosed", b"orders"));
    let channels = vec![b"orders".to_vec(), b"shipments".to_vec()];
    let got = receiving_channels(&channels, b"ordersclosed");
    assert_eq!(got, vec![b"orders".to_vec()]);
}

#[test]
fn fanout_routes_to_matching_workers_only() {
    let channels = vec![b"a".to_vec(), b"b".to_vec(), b"ab".to_vec()];
    assert_eq!(receiving_channels(&channels, b"a"), vec![b"a".to_vec()]);
    assert_eq!(receiving_channels(&channels, b"b"), vec![b"b".to_vec()]);
    assert_eq!(
        receiving_channels(&channels, b"abc"),
        vec![b"a".to_vec(), b"ab".to_vec()]
    );
    assert_eq!(receiving_channels(&channels, b"z"), Vec::<Vec<u8>>::new());
}

#[test]
fn worker_discards_single_frame_messages() {
    // a first frame with nothing following is dropped, not an error
    let (state, action) = worker_step(WorkerState::AwaitTopic, false);
    assert_eq!(state, WorkerState::AwaitTopic);
    assert_eq!(action, WorkerAction::Discard);
    // a first frame announcing a payload writes nothing yet
    let (state, action) = worker_step(WorkerState::AwaitTopic, true);
    assert_eq!(state, WorkerState::AwaitPayload);
    assert_eq!(action, WorkerAction::AwaitMore);
    // the payload frame is appended whatever its own flag says
    for more in [false, true] {
        let (state, action) = worker_step(WorkerState::AwaitPayload, more);
        assert_eq!(state, WorkerState::AwaitTopic);
        assert_eq!(action, WorkerAction::AppendPayload);
    }
}

#[test]
fn worker_appends_only_announced_payloads() {
    let frames = vec![
        (false, b"orphan".to_vec()),           // degenerate single frame: dropped
        (true, b"orders".to_vec()),            // topic frame of a proper message
        (false, b"first record".to_vec()),     // its payload
        (true, b"orders".to_vec()),            // next message's topic
        (true, b"second record".to_vec()),     // payload, its own flag ignored
        (false, b"third record".to_vec()),     // new topic frame, nothing follows
    ];
    let appended = worker_replay(&frames);
    assert_eq!(
        appended,
        vec![b"first record".to_vec(), b"second record".to_vec()]
    );
}

#[test]
fn publish_reaches_exactly_one_channel() {
    // the distribution model end to end: parse a two-channel configuration,
    // publish one record under topic "a", and check that channel a's segment
    // holds exactly that record while channel b's stays empty
    let config = Config::new_from_buf_read(b"STORE /tmp/x\nLOG a\nLOG b\n").unwrap();
    assert_eq!(config.store, b"/tmp/x".to_vec());

    let topic: &[u8] = b"a";
    let payload: &[u8] = b"hello";
    let receivers = receiving_channels(&config.logs, topic);
    assert_eq!(receivers, vec![b"a".to_vec()]);

    // each channel's segment starts with the header; only receivers append
    let mut segments: Vec<(Vec<u8>, Vec<u8>)> = Vec::new();
    for name in &config.logs {
        let mut writer = Appender::open_for_append(config.store.clone(), name.clone());
        let (path, mut segment) = writer.open_segment(77);
        assert_eq!(
            path,
            [b"/tmp/x/".as_slice(), name.as_slice(), b"/77".as_slice()].concat()
        );
        if receivers.contains(name) {
            let (frame, rotate) = writer.append(payload);
            assert!(!rotate);
            segment.extend_from_slice(&frame);
        }
        segments.push((name.clone(), segment));
    }

    for (name, segment) in &segments {
        let records = read_records(segment).unwrap();
        if name == b"a" {
            assert_eq!(records, vec![b"hello".to_vec()]);
            assert_eq!(&segment[16..], frame_record(b"hello").as_slice());
        } else {
            assert!(records.is_empty());
        }
    }
}
