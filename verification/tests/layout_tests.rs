use broker_core::layout::{stream_file_name, stream_of_file_name};

#[test]
fn file_name_is_prefix_sixteen_hex_digits_suffix() {
    assert_eq!(stream_file_name(0), "stream-0000000000000000.log");
    assert_eq!(stream_file_name(7), "stream-0000000000000007.log");
    assert_eq!(stream_file_name(0x2a), "stream-000000000000002a.log");
    assert_eq!(stream_file_name(0x0123_4567_89ab_cdef), "stream-0123456789abcdef.log");
    assert_eq!(stream_file_name(u64::MAX), "stream-ffffffffffffffff.log");
}

#[test]
fn file_name_agrees_with_std_formatting() {
    let mut id = 1u64;
    for _ in 0..200 {
        assert_eq!(stream_file_name(id), format!("stream-{:016x}.log", id));
        id = id.wrapping_mul(6364136223846793005).wrapping_add(1442695040888963407);
    }
}

#[test]
fn file_names_have_one_width_and_sort_as_the_ids_do() {
    let ids = [0u64, 1, 9, 10, 15, 16, 255, 256, 0xffff_ffff, 1 << 40, u64::MAX - 1, u64::MAX];
    for pair in ids.windows(2) {
        let (a, b) = (stream_file_name(pair[0]), stream_file_name(pair[1]));
        assert_eq!(a.len(), 27);
        assert_eq!(b.len(), 27);
        assert!(a < b);
    }
}

#[test]
fn stream_is_found_again_from_its_file_name() {
    let mut id = 1u64;
    for _ in 0..200 {
        assert_eq!(stream_of_file_name(&stream_file_name(id)), Some(id));
        id = id.wrapping_mul(6364136223846793005).wrapping_add(1442695040888963407);
    }
    assert_eq!(stream_of_file_name("stream-0000000000000000.log"), Some(0));
    assert_eq!(stream_of_file_name("stream-000000000000002a.log"), Some(42));
    assert_eq!(stream_of_file_name("stream-ffffffffffffffff.log"), Some(u64::MAX));
}

#[test]
fn other_names_are_no_stream_files() {
    for name in [
        "",
        "stream-.log",
        "stream-2a.log",
        "stream-000000000000002A.log",
        "stream-000000000000002g.log",
        "stream-00000000000000002a.log",
        "Stream-000000000000002a.log",
        "stream_000000000000002a.log",
        "stream-000000000000002a.lag",
        "stream-000000000000002a.log ",
        "stream-+00000000000002a.log",
        "stream-000000000000002\u{e9}.log",
        "wal.log",
    ] {
        assert_eq!(stream_of_file_name(name), None, "{:?}", name);
    }
}
