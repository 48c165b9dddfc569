//! Sections that may not allocate.

use analyzer::engine::rt::{permit_alloc, rt_section};

#[test]
fn rt_section_passes_values_through() {
    let sum = rt_section(|| (1..=10).sum::<u32>());
    assert_eq!(sum, 55);
}

#[test]
fn preallocated_buffers_are_fine_to_use() {
    let mut buffer = vec![0.0_f32; 128];
    rt_section(|| {
        for (n, slot) in buffer.iter_mut().enumerate() {
            *slot = n as f32;
        }
    });
    assert_eq!(buffer.last(), Some(&127.0));
}

#[test]
fn permit_alloc_opens_a_hole_in_the_guard() {
    let value = rt_section(|| permit_alloc(|| vec![1_u8, 2, 3].len()));
    assert_eq!(value, 3);
}

#[test]
fn a_section_hands_back_what_its_body_gives() {
    let mut calls = 0;
    let text = rt_section(|| {
        calls += 1;
        permit_alloc(|| "made inside".to_string())
    });
    assert_eq!(text, "made inside");
    assert_eq!(calls, 1);
}
