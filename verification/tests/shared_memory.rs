use launch_monitor_research::frame_source::shared_memory::{
    calibrate_command, check_header, encode_command, flip_rgba_y, launch_command, parse_frame_header,
    parse_shared_header, plan_poll, reset_command, ring_slots, slot_for_frame, slot_offset,
    source_state, FrameLayout, OpenError, PollPlan, SharedState, MAGIC,
};
use launch_monitor_research::frame_source::SourceState;

fn put_u32(buf: &mut Vec<u8>, v: u32) {
    buf.extend_from_slice(&v.to_le_bytes());
}

fn header_bytes(magic: u32, state: i32, write_head: i32, frame_count: i32, w: i32, h: i32) -> Vec<u8> {
    let mut b = Vec::new();
    put_u32(&mut b, magic);
    put_u32(&mut b, state as u32);
    put_u32(&mut b, write_head as u32);
    put_u32(&mut b, frame_count as u32);
    put_u32(&mut b, w as u32);
    put_u32(&mut b, h as u32);
    put_u32(&mut b, 240.0f32.to_bits());
    for v in [165.0f32, 10.5, -2.5, 2700.0, -5.0] {
        put_u32(&mut b, v.to_bits());
    }
    b.resize(104, 0);
    b
}

#[test]
fn flip_reverses_rows() {
    // Two rows of one RGBA pixel each.
    let rgba = vec![1, 2, 3, 4, 5, 6, 7, 8];
    assert_eq!(flip_rgba_y(&rgba, 1, 2), vec![5, 6, 7, 8, 1, 2, 3, 4]);
}

#[test]
fn flip_twice_is_identity() {
    let rgba: Vec<u8> = (0..24).collect();
    let once = flip_rgba_y(&rgba, 2, 3);
    assert_eq!(&once[0..8], &rgba[16..24]);
    assert_eq!(flip_rgba_y(&once, 2, 3), rgba);
}

#[test]
fn flip_zeroes_bytes_past_the_last_row() {
    let rgba = vec![1, 2, 3, 4, 9, 9];
    assert_eq!(flip_rgba_y(&rgba, 1, 1), vec![1, 2, 3, 4, 0, 0]);
}

#[test]
fn shared_state_from_raw_values() {
    assert_eq!(SharedState::from(0), SharedState::Idle);
    assert_eq!(SharedState::from(1), SharedState::Ready);
    assert_eq!(SharedState::from(2), SharedState::Streaming);
    assert_eq!(SharedState::from(3), SharedState::Complete);
    assert_eq!(SharedState::from(7), SharedState::Idle);
    assert_eq!(SharedState::from(-1), SharedState::Idle);
}

#[test]
fn source_state_mapping() {
    assert_eq!(source_state(false, 2), SourceState::Disconnected);
    assert_eq!(source_state(true, 2), SourceState::Streaming);
    assert_eq!(source_state(true, 3), SourceState::Complete);
    assert_eq!(source_state(true, 1), SourceState::Ready);
    assert_eq!(source_state(true, 99), SourceState::Idle);
}

#[test]
fn header_is_parsed_little_endian() {
    let b = header_bytes(MAGIC, 2, 75, 80, 512, 384);
    let h = parse_shared_header(&b);
    assert_eq!(h.magic, 0x474F4C46);
    assert_eq!(h.state, 2);
    assert_eq!(h.write_head, 75);
    assert_eq!(h.frame_count, 80);
    assert_eq!((h.width, h.height), (512, 384));
    assert_eq!(f32::from_bits(h.fps_bits), 240.0);
    assert_eq!(f32::from_bits(h.hla_deg_bits), -2.5);
    let b = header_bytes(MAGIC, -5, -1, 0, 1, 1);
    let h = parse_shared_header(&b);
    assert_eq!((h.state, h.write_head), (-5, -1));
}

#[test]
fn header_check_and_layout() {
    let h = parse_shared_header(&header_bytes(MAGIC, 0, 0, 0, 512, 384));
    assert_eq!(
        check_header(&h),
        Ok(FrameLayout { pixel_size: 512 * 384 * 4, frame_size: 36 + 2 * 512 * 384 * 4 })
    );
    let h = parse_shared_header(&header_bytes(0x1234, 0, 0, 0, 512, 384));
    assert_eq!(check_header(&h), Err(OpenError::BadMagic));
    assert_eq!(slot_offset(2, 100), 304);
}

#[test]
fn frame_header_parsing() {
    let mut b = vec![0u8; 10];
    put_u32(&mut b, 17);
    b.extend_from_slice(&(1.25f64).to_bits().to_le_bytes());
    for v in [1.0f32, 2.0, 3.0, -4.0, -5.0, -6.0] {
        put_u32(&mut b, v.to_bits());
    }
    let h = parse_frame_header(&b, 10).unwrap();
    assert_eq!(h.frame_index, 17);
    assert_eq!(f64::from_bits(h.timestamp_bits), 1.25);
    assert_eq!(f32::from_bits(h.ball_pos_bits[2]), 3.0);
    assert_eq!(f32::from_bits(h.ball_vel_bits[0]), -4.0);
    b[10..14].copy_from_slice(&(-1i32).to_le_bytes());
    assert!(parse_frame_header(&b, 10).is_none());
}

#[test]
fn commands_are_encoded_little_endian() {
    let values = [120.0f32.to_bits(), 16.0f32.to_bits(), 1.2f32.to_bits(), 7000.0f32.to_bits(), 2.0f32.to_bits()];
    let c = launch_command(values);
    assert_eq!(c.len(), 24);
    assert_eq!(&c[0..4], &1i32.to_le_bytes());
    assert_eq!(&c[4..8], &120.0f32.to_le_bytes());
    assert_eq!(&c[20..24], &2.0f32.to_le_bytes());
    let r = reset_command();
    assert_eq!(&r[0..4], &[2, 0, 0, 0]);
    assert!(r[4..].iter().all(|&b| b == 0));
    assert_eq!(&calibrate_command()[0..4], &[3, 0, 0, 0]);
    assert_eq!(&encode_command(-2, [0; 5])[0..4], &[0xfe, 0xff, 0xff, 0xff]);
}

#[test]
fn ring_slots_cover_the_last_frames() {
    assert!(ring_slots(0, 10).is_empty());
    assert!(ring_slots(10, 0).is_empty());
    assert_eq!(ring_slots(3, 10), vec![0, 1, 2]);
    assert_eq!(ring_slots(10, 3), vec![7, 8, 9]);
    let s = ring_slots(130, 200);
    assert_eq!(s.len(), 60);
    assert_eq!(s[0], 10);
    assert_eq!(s[49], 59);
    assert_eq!(s[50], 0);
    let mut sorted = s.clone();
    sorted.sort();
    sorted.dedup();
    assert_eq!(sorted.len(), 60);
}

#[test]
fn ring_slots_with_negative_counts_wrap_like_usize() {
    // A negative write head reads as a huge usize: the last 60 frames before it.
    let s = ring_slots(-1, -1);
    assert_eq!(s.len(), 60);
    let wh = (-1i32) as usize;
    assert_eq!(s[0], (wh - 60) % 60);
}

#[test]
fn polling_reads_each_frame_once_in_order() {
    assert_eq!(plan_poll(-1, 0), PollPlan { last_read: -1, next: None });
    assert_eq!(plan_poll(-1, 3), PollPlan { last_read: -1, next: Some(0) });
    assert_eq!(plan_poll(0, 3), PollPlan { last_read: 0, next: Some(1) });
    assert_eq!(plan_poll(2, 3), PollPlan { last_read: 2, next: None });
    assert_eq!(slot_for_frame(61), 1);
}

#[test]
fn polling_skips_frames_that_left_the_ring() {
    // 100 frames written: frames 40..99 remain.
    assert_eq!(plan_poll(5, 100), PollPlan { last_read: 39, next: Some(40) });
    assert_eq!(plan_poll(-1, 61), PollPlan { last_read: 0, next: Some(1) });
}
