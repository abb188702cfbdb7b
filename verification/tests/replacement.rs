use health_sync::registry::HookHandle;
use health_sync::replacement::{replacement, BarChartCall, ForwardedCall};

fn call(progress: f32) -> BarChartCall {
    BarChartCall {
        x: 12.5f32.to_bits(),
        y: 480.0f32.to_bits(),
        width: 62,
        height: 9,
        progress: progress.to_bits(),
        progress_add: -3,
        draw_percentage: 1,
        draw_black_border: 0,
        color: 0x00C0_FFEE,
        add_color: 0x00BA_DA55,
    }
}

#[test]
fn without_a_handle_nothing_is_forwarded() {
    assert_eq!(replacement(None, call(50.0)), None);
    assert_eq!(replacement(None, call(10100.0)), None);
}

#[test]
fn with_a_handle_the_original_is_called_at_its_address() {
    let handle = HookHandle::new(0x72_8640, 0x1000_0000).unwrap();
    let forwarded = replacement(Some(handle), call(50.0)).unwrap();
    assert_eq!(forwarded.entry, 0x1000_0000);
    assert_eq!(forwarded, ForwardedCall { entry: 0x1000_0000, call: call(50.0) });
}

#[test]
fn only_the_progress_is_changed() {
    let handle = HookHandle::new(0x72_8640, 0x1000_0000).unwrap();
    for (given, expected) in [
        (50.0f32, 50.0f32),
        (10000.0, 0.0),
        (10100.0, 100.0),
        (10200.0, 160.0),
        (9999.9, 9999.9),
    ] {
        let forwarded = replacement(Some(handle), call(given)).unwrap();
        assert_eq!(f32::from_bits(forwarded.call.progress), expected);
        assert_eq!(forwarded.call, call(expected));
    }
}
