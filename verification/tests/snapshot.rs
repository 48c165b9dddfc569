//! The snapshot channel.

use analyzer::engine::engine::SpectrumFrame;
use analyzer::engine::snapshot::snapshot_channel;
use analyzer::ieee::F32;

/// The bit pattern of `x`.
pub fn number(x: f32) -> F32 {
    F32 { bits: x.to_bits() }
}

/// The bit patterns of `xs`.
pub fn numbers(xs: &[f32]) -> Vec<F32> {
    xs.iter().copied().map(number).collect()
}

fn frame_of(sequence: u64, bins: &[f32]) -> SpectrumFrame {
    let mut frame = SpectrumFrame::initial(0, number(0.0), number(48_000.0));
    frame.sequence = sequence;
    frame.bins = numbers(bins);
    frame
}

#[test]
fn reader_sees_the_initial_value_before_anything_is_published() {
    let (_publisher, mut reader) = snapshot_channel(frame_of(7, &[1.0, 2.0]));
    assert_eq!(reader.read().sequence, 7);
}

#[test]
fn published_values_become_visible() {
    let (mut publisher, mut reader) = snapshot_channel(frame_of(0, &[]));

    publisher.publish_with(|frame: &mut SpectrumFrame| {
        frame.sequence = 1;
        frame.bins.clear();
        frame.bins.extend_from_slice(&numbers(&[0.5, 0.25]));
    });

    assert!(reader.has_update());
    let frame = reader.read();
    assert_eq!(frame.sequence, 1);
    assert_eq!(frame.bins, numbers(&[0.5, 0.25]));
}

#[test]
fn has_update_is_false_until_something_is_published() {
    let (mut publisher, mut reader) = snapshot_channel(frame_of(0, &[]));
    assert!(!reader.has_update());

    publisher.publish_with(|frame: &mut SpectrumFrame| frame.sequence = 1);
    assert!(reader.has_update());

    reader.read();
    assert!(!reader.has_update(), "consumed update should clear");
}

#[test]
fn a_slow_reader_sees_only_the_newest_value() {
    let (mut publisher, mut reader) = snapshot_channel(frame_of(0, &[]));

    for sequence in 1..=100 {
        publisher.publish_with(|frame: &mut SpectrumFrame| frame.sequence = sequence);
    }

    assert_eq!(reader.read().sequence, 100);
}

#[test]
fn repeated_reads_without_a_publish_are_stable() {
    let (mut publisher, mut reader) = snapshot_channel(frame_of(0, &[]));
    publisher.publish_with(|frame: &mut SpectrumFrame| frame.sequence = 42);

    assert_eq!(reader.read().sequence, 42);
    assert_eq!(reader.read().sequence, 42);
    assert_eq!(reader.read().sequence, 42);
}

#[test]
fn pending_buffer_is_recycled_not_freshly_copied() {
    let (mut publisher, mut reader) = snapshot_channel(frame_of(0, &[]));

    publisher.publish_with(|frame: &mut SpectrumFrame| frame.sequence = 1);
    publisher.publish_with(|frame: &mut SpectrumFrame| frame.sequence = 2);
    publisher.publish_with(|frame: &mut SpectrumFrame| {
        assert_ne!(frame.sequence, 2, "must not be the value just published");
        frame.sequence = 3;
    });

    assert_eq!(reader.read().sequence, 3);
}

#[test]
fn reads_between_publications_never_go_back() {
    let (mut publisher, mut reader) = snapshot_channel(frame_of(0, &[0.0]));
    let mut last = 0;
    for sequence in 1..=200_u64 {
        publisher.publish_with(|frame: &mut SpectrumFrame| {
            frame.sequence = sequence;
            frame.bins = numbers(&[sequence as f32]);
        });
        if sequence % 3 == 0 {
            let frame = reader.read();
            assert!(frame.sequence > last);
            assert_eq!(frame.bins, numbers(&[frame.sequence as f32]));
            last = frame.sequence;
        }
    }
    assert!(reader.has_update());
    assert_eq!(reader.read().sequence, 200);
}

#[test]
fn an_update_that_was_seen_is_read_next() {
    let (mut publisher, mut reader) = snapshot_channel(frame_of(0, &[]));
    for sequence in 1..=20 {
        let before = reader.read().sequence;
        publisher.publish_with(|frame: &mut SpectrumFrame| frame.sequence = sequence);
        assert!(reader.has_update());
        assert!(reader.read().sequence > before);
    }
}
