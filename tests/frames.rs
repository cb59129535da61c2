use game_of_life::disk::{frame_file_name, frame_index_of, replay_order, DiskReplay, DiskSpool};
use game_of_life::frames::{encoded_millis, FrameQueue};

#[test]
fn queue_replays_in_submission_order() {
    let mut q = FrameQueue::new();
    q.submit(vec![1, 1, 1]);
    q.submit(vec![2, 2]);
    q.submit(vec![3]);
    assert_eq!(q.len(), 3);
    assert_eq!(q.replay(), vec![vec![1, 1, 1], vec![2, 2], vec![3]]);
}

#[test]
fn empty_queue_replays_nothing() {
    let q = FrameQueue::new();
    assert_eq!(q.len(), 0);
    assert!(q.replay().is_empty());
}

#[test]
fn encoded_length_in_milliseconds() {
    assert_eq!(encoded_millis(0, 60), 0);
    assert_eq!(encoded_millis(60, 60), 1000);
    assert_eq!(encoded_millis(90, 60), 1500);
    assert_eq!(encoded_millis(1, 30), 33);
    assert_eq!(encoded_millis(u64::MAX, 1), u64::MAX as u128 * 1000);
}

#[test]
fn frame_names_are_decimal_numbers() {
    assert_eq!(frame_file_name(0), "0.raw");
    assert_eq!(frame_file_name(12), "12.raw");
    assert_eq!(frame_file_name(4294967295), "4294967295.raw");
}

#[test]
fn frame_index_reads_the_stem() {
    assert_eq!(frame_index_of("12.raw"), 12);
    assert_eq!(frame_index_of("frames/7.raw"), 7);
    assert_eq!(frame_index_of("C:\\rec\\frames\\31.raw"), 31);
    assert_eq!(frame_index_of("/tmp/a.b/0042.raw"), 42);
    assert_eq!(frame_index_of("5"), 5);
}

#[test]
fn frame_index_defaults_to_zero() {
    assert_eq!(frame_index_of("notes.txt"), 0);
    assert_eq!(frame_index_of(""), 0);
    assert_eq!(frame_index_of(".raw"), 0);
    assert_eq!(frame_index_of("frames/"), 0);
    assert_eq!(frame_index_of("99999999999.raw"), 0);
}

#[test]
fn frame_index_takes_a_sign() {
    assert_eq!(frame_index_of("+5.raw"), 5);
    assert_eq!(frame_index_of("-3.raw"), -3);
    assert_eq!(frame_index_of("-.raw"), 0);
    assert_eq!(frame_index_of("+.raw"), 0);
    assert_eq!(frame_index_of("2147483647.raw"), i32::MAX);
    assert_eq!(frame_index_of("2147483648.raw"), 0);
    assert_eq!(frame_index_of("-2147483648.raw"), i32::MIN);
    assert_eq!(frame_index_of("-2147483649.raw"), 0);
    assert_eq!(frame_index_of("1-2.raw"), 0);
}

#[test]
fn frame_names_read_back() {
    for n in [0u32, 1, 9, 10, 99, 100, 65535, 2147483647] {
        assert_eq!(frame_index_of(&frame_file_name(n)), n as i32);
    }
}

#[test]
fn replay_order_is_stable() {
    assert_eq!(replay_order(&vec![3, 1, 2]), vec![1, 2, 0]);
    assert_eq!(replay_order(&vec![0, 5, 0, 5, 1]), vec![0, 2, 4, 1, 3]);
    assert_eq!(replay_order(&vec![]), Vec::<usize>::new());
    assert_eq!(replay_order(&vec![-1, i32::MAX, i32::MIN]), vec![2, 0, 1]);
}

#[test]
fn disk_replay_follows_frame_numbers() {
    let listing = vec![
        "rec/10.raw".to_string(),
        "rec/2.raw".to_string(),
        "rec/0.raw".to_string(),
        "rec/1.raw".to_string(),
    ];
    let mut replay = DiskReplay::new(listing);
    assert_eq!(replay.remaining(), 4);
    assert_eq!(replay.next_file().as_deref(), Some("rec/0.raw"));
    assert_eq!(replay.next_file().as_deref(), Some("rec/1.raw"));
    assert_eq!(replay.next_file().as_deref(), Some("rec/2.raw"));
    assert_eq!(replay.next_file().as_deref(), Some("rec/10.raw"));
    assert_eq!(replay.remaining(), 0);
    assert_eq!(replay.next_file(), None);
    assert_eq!(replay.next_file(), None);
}

#[test]
fn spooled_frames_come_back_in_order() {
    let mut spool = DiskSpool::new();
    let names: Vec<String> = (0..3).map(|_| spool.next_name()).collect();
    assert_eq!(names, vec!["0.raw", "1.raw", "2.raw"]);
    assert_eq!(spool.written(), 3);
    let listing = vec![names[2].clone(), names[0].clone(), names[1].clone()];
    let mut replay = DiskReplay::new(listing);
    let mut out = Vec::new();
    while let Some(f) = replay.next_file() {
        out.push(f);
    }
    assert_eq!(out, names);
}
