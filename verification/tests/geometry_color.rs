use cpu_path_tracing::color::quantized_maximum;
use cpu_path_tracing::geometry::RayDebugInfo;

#[test]
fn ray_debug_info_extend_adds_counters() {
    let mut a = RayDebugInfo { bounds_test_count: 3, primitive_test_count: 7 };
    a.extend(RayDebugInfo { bounds_test_count: 10, primitive_test_count: 1 });
    assert_eq!(a.bounds_test_count, 13);
    assert_eq!(a.primitive_test_count, 8);
    a.extend(RayDebugInfo::default());
    assert_eq!(a.bounds_test_count, 13);
    assert_eq!(a.primitive_test_count, 8);
}

#[test]
fn quantized_maximum_is_all_ones() {
    assert_eq!(quantized_maximum(1), 1);
    assert_eq!(quantized_maximum(8), 255);
    assert_eq!(quantized_maximum(10), 1023);
    assert_eq!(quantized_maximum(16), 65535);
    assert_eq!(quantized_maximum(31), 0x7fff_ffff);
    assert_eq!(quantized_maximum(32), u32::MAX);
    for bits in 1..32u32 {
        assert_eq!(quantized_maximum(bits) as u64, (1u64 << bits) - 1);
    }
}
