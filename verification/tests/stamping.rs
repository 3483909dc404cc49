use file_scrambler::timestamp::{draw_mtime, mtime_from_raw, TimestampPolicy, WindowDirection};

#[test]
fn raw_draw_is_reduced_into_the_window() {
    let p = TimestampPolicy { reference: 1000, window: 10, direction: WindowDirection::After };
    assert_eq!(mtime_from_raw(&p, 0), 1000);
    assert_eq!(mtime_from_raw(&p, 25), 1005);
    assert_eq!(mtime_from_raw(&p, 9), 1009);
    assert_eq!(mtime_from_raw(&p, 10), 1000);
}

#[test]
fn backward_window_subtracts_the_offset() {
    let p = TimestampPolicy { reference: 1000, window: 10, direction: WindowDirection::Before };
    assert_eq!(mtime_from_raw(&p, 25), 995);
    assert_eq!(mtime_from_raw(&p, 0), 1000);
}

#[test]
fn drawn_times_stay_inside_the_window() {
    let p = TimestampPolicy {
        reference: 1_695_340_800,
        window: 864_000,
        direction: WindowDirection::After,
    };
    for _ in 0..200 {
        let t = draw_mtime(&p);
        assert!(t >= p.reference);
        assert!(t <= p.reference + p.window);
    }
    let q = TimestampPolicy {
        reference: 1_695_340_800,
        window: 864_000,
        direction: WindowDirection::Before,
    };
    for _ in 0..200 {
        let t = draw_mtime(&q);
        assert!(t <= q.reference);
        assert!(t >= q.reference - q.window);
    }
}
