use mjpeg_rs::broadcaster::{Broadcaster, Dequeued};
use mjpeg_rs::capture::{bgr_to_rgb, bgra_to_rgb, capture_tick, tick_buffer, PixelFormat};
use mjpeg_rs::framer::{dec_to_bytes, frame};

fn expect_frame(d: Dequeued) -> Vec<u8> {
    match d {
        Dequeued::Frame(v) => v,
        Dequeued::Empty => panic!("queue unexpectedly empty"),
        Dequeued::Closed => panic!("subscriber unexpectedly pruned"),
    }
}

#[test]
fn fifo_order() {
    let mut b = Broadcaster::new();
    let a = b.new_client();
    let f1 = vec![1u8, 1, 1];
    let f2 = vec![2u8, 2];
    let f3 = vec![3u8];
    b.publish(&f1);
    b.publish(&f2);
    b.publish(&f3);
    assert_eq!(expect_frame(b.dequeue(&a)), f1);
    assert_eq!(expect_frame(b.dequeue(&a)), f2);
    assert_eq!(expect_frame(b.dequeue(&a)), f3);
    assert!(matches!(b.dequeue(&a), Dequeued::Empty));
}

#[test]
fn prune_on_overflow() {
    let mut b = Broadcaster::with_capacity(2);
    let sub = b.new_client();
    b.publish(&[1u8]);
    b.publish(&[2u8]);
    b.publish(&[3u8]);
    assert!(matches!(b.dequeue(&sub), Dequeued::Closed));
    b.publish(&[4u8]);
    assert!(matches!(b.dequeue(&sub), Dequeued::Closed));
}

#[test]
fn pruned_subscriber_gets_nothing_later() {
    let mut b = Broadcaster::with_capacity(1);
    let lagging = b.new_client();
    b.publish(&[1u8]);
    b.publish(&[2u8]);
    for _ in 0..5 {
        b.publish(&[9u8]);
        assert!(matches!(b.dequeue(&lagging), Dequeued::Closed));
    }
}

#[test]
fn late_joiner_gets_last_frame() {
    let mut b = Broadcaster::new();
    b.publish(&[7u8, 8, 9]);
    let a = b.new_client();
    assert_eq!(expect_frame(b.dequeue(&a)), vec![7u8, 8, 9]);
    assert!(matches!(b.dequeue(&a), Dequeued::Empty));
}

#[test]
fn late_joiner_sees_only_most_recent() {
    let mut b = Broadcaster::new();
    b.publish(&[1u8]);
    b.publish(&[2u8]);
    let a = b.new_client();
    assert_eq!(expect_frame(b.dequeue(&a)), vec![2u8]);
    assert!(matches!(b.dequeue(&a), Dequeued::Empty));
}

#[test]
fn publish_without_subscribers() {
    let mut b = Broadcaster::new();
    b.publish(&[1u8, 2, 3]);
    b.publish(&[4u8, 5]);
    let a = b.new_client();
    assert_eq!(expect_frame(b.dequeue(&a)), vec![4u8, 5]);
    assert!(matches!(b.dequeue(&a), Dequeued::Empty));
}

#[test]
fn subscriber_starts_empty_before_any_publish() {
    let mut b = Broadcaster::new();
    let a = b.new_client();
    assert!(matches!(b.dequeue(&a), Dequeued::Empty));
}

#[test]
fn framing_exact() {
    let content: Vec<u8> = vec![0u8, 1, 2, 3, 4, 5, 6, 7, 8, 9];
    let framed = frame(&content);
    let mut expected = format!(
        "--boundarydonotcross\r\nContent-Length:{}\r\nContent-Type:image/jpeg\r\n\r\n",
        content.len()
    )
    .into_bytes();
    expected.extend(&content);
    assert_eq!(framed, expected);
}

#[test]
fn framing_empty_content() {
    let framed = frame(&[]);
    let expected =
        b"--boundarydonotcross\r\nContent-Length:0\r\nContent-Type:image/jpeg\r\n\r\n".to_vec();
    assert_eq!(framed, expected);
}

#[test]
fn framing_multi_digit_length() {
    let content = vec![0xABu8; 120];
    let framed = frame(&content);
    let mut expected =
        b"--boundarydonotcross\r\nContent-Length:120\r\nContent-Type:image/jpeg\r\n\r\n".to_vec();
    expected.extend(&content);
    assert_eq!(framed, expected);
}

#[test]
fn decimal_rendering() {
    assert_eq!(dec_to_bytes(0), b"0".to_vec());
    assert_eq!(dec_to_bytes(7), b"7".to_vec());
    assert_eq!(dec_to_bytes(10), b"10".to_vec());
    assert_eq!(dec_to_bytes(120), b"120".to_vec());
    assert_eq!(dec_to_bytes(98765), b"98765".to_vec());
}

#[test]
fn framed_dequeue_matches() {
    let mut b = Broadcaster::new();
    let a = b.new_client();
    let f: Vec<u8> = vec![9u8, 8, 7, 6, 5, 4, 3, 2, 1, 0];
    b.publish(&f);
    let got = expect_frame(b.dequeue(&a));
    assert_eq!(got, f);
    assert_eq!(frame(&got), frame(&f));
}

#[test]
fn two_subscribers_identical() {
    let mut b = Broadcaster::new();
    let a = b.new_client();
    let c = b.new_client();
    b.publish(&[1u8, 2, 3, 4]);
    let va = expect_frame(b.dequeue(&a));
    let vc = expect_frame(b.dequeue(&c));
    assert_eq!(va, vc);
    assert_eq!(frame(&va), frame(&vc));
}

#[test]
fn bgra_to_rgb_exact() {
    let bgra: Vec<u8> = vec![1, 2, 3, 4, 5, 6, 7, 8];
    let rgb = bgra_to_rgb(&bgra, 2, 1);
    assert_eq!(rgb, vec![3u8, 2, 1, 7, 6, 5]);
}

#[test]
fn bgr_to_rgb_exact() {
    let bgr: Vec<u8> = vec![1, 2, 3, 4, 5, 6];
    let rgb = bgr_to_rgb(&bgr, 2, 1);
    assert_eq!(rgb, vec![3u8, 2, 1, 6, 5, 4]);
}

#[test]
fn bgr_capture_publishes() {
    let mut b = Broadcaster::new();
    let a = b.new_client();
    let bgr = vec![0x20u8; 2 * 2 * 3];
    let published = capture_tick(&mut b, PixelFormat::Bgr, Some(bgr), 2, 2);
    assert!(published);
    let jpeg = expect_frame(b.dequeue(&a));
    assert_eq!(&jpeg[0..2], &[0xFFu8, 0xD8]);
}

#[test]
fn capture_failure_yields_placeholder_buffer() {
    let buf = tick_buffer(PixelFormat::Bgra, None, 4, 2);
    assert_eq!(buf, vec![0u8; 4 * 2 * 3]);
}

#[test]
fn malformed_capture_yields_placeholder_buffer() {
    let buf = tick_buffer(PixelFormat::Bgra, Some(vec![1u8, 2, 3]), 4, 2);
    assert_eq!(buf, vec![0u8; 4 * 2 * 3]);
}

#[test]
fn capture_failure_still_publishes() {
    let mut b = Broadcaster::new();
    let a = b.new_client();
    let published = capture_tick(&mut b, PixelFormat::Bgra, None, 4, 4);
    assert!(published);
    let jpeg = expect_frame(b.dequeue(&a));
    // A real JPEG, not the raw zero buffer handed to the encoder.
    assert!(jpeg.len() > 2);
    assert_eq!(&jpeg[0..2], &[0xFFu8, 0xD8]);
    assert_ne!(jpeg, vec![0u8; 4 * 4 * 3]);
}

#[test]
fn capture_success_publishes_encoding() {
    let mut b = Broadcaster::new();
    let a = b.new_client();
    let bgra = vec![0x40u8; 2 * 2 * 4];
    let published = capture_tick(&mut b, PixelFormat::Bgra, Some(bgra), 2, 2);
    assert!(published);
    let jpeg = expect_frame(b.dequeue(&a));
    assert!(jpeg.len() > 2);
    assert_eq!(&jpeg[0..2], &[0xFFu8, 0xD8]);
}

#[test]
fn zero_dimensions_drop_the_tick() {
    let mut b = Broadcaster::new();
    let a = b.new_client();
    let published = capture_tick(&mut b, PixelFormat::Bgra, None, 0, 0);
    assert!(!published);
    assert!(matches!(b.dequeue(&a), Dequeued::Empty));
}

#[test]
fn oversized_dimensions_drop_the_tick() {
    let mut b = Broadcaster::new();
    let a = b.new_client();
    let published = capture_tick(&mut b, PixelFormat::Bgra, None, 0x1_0000, 1);
    assert!(!published);
    assert!(matches!(b.dequeue(&a), Dequeued::Empty));
}
