use fjall::id::{generate_segment_id, segment_id_from, to_base36, Timestamp};

#[test]
fn base36_of_small_numbers() {
    assert_eq!(to_base36(0), "0");
    assert_eq!(to_base36(9), "9");
    assert_eq!(to_base36(10), "a");
    assert_eq!(to_base36(35), "z");
    assert_eq!(to_base36(36), "10");
    assert_eq!(to_base36(u32::MAX), "1z141z3");
}

#[test]
fn segment_id_has_four_parts() {
    let t = Timestamp { month: 12, day: 31, hour: 23, minute: 59, nanos: 999_999_999 };
    assert_eq!(segment_id_from(&t, 0), "cv_n1n_gjdgxr_0");
    let id = generate_segment_id();
    assert_eq!(id.split('_').count(), 4);
}

fn from_base36(s: &str) -> u32 {
    u32::from_str_radix(s, 36).unwrap()
}

#[test]
fn generated_id_holds_a_calendar_time() {
    for _ in 0..100 {
        let id = generate_segment_id();
        let parts: Vec<&str> = id.split('_').collect();
        assert_eq!(parts.len(), 4);
        // Month and day take one digit each.
        assert_eq!(parts[0].len(), 2);
        let month = from_base36(&parts[0][..1]);
        let day = from_base36(&parts[0][1..]);
        let hour = from_base36(&parts[1][..1]);
        let minute = from_base36(&parts[1][1..]);
        let nanos = from_base36(parts[2]);
        assert!((1..=12).contains(&month));
        assert!((1..=31).contains(&day));
        assert!(hour < 24);
        assert!(minute < 60);
        assert!(nanos < 2_000_000_000);
        assert_eq!(to_base36(from_base36(parts[3])), parts[3]);
    }
}

#[test]
fn generated_ids_differ() {
    let a = generate_segment_id();
    let b = generate_segment_id();
    assert_ne!(a, b);
}
