use treehash::budget::get_buffer_size;

const MIB: u64 = 1024 * 1024;
const GIB: u64 = 1024 * MIB;

#[test]
fn default_fits_sixteen_threads_in_four_gib() {
    // 4 GiB / 16 threads = 256 MiB per thread: the default needs no halving.
    assert_eq!(get_buffer_size(16, 4 * GIB), Some((256 * MIB) as usize));
}

#[test]
fn halves_down_to_per_thread_share() {
    // 1 GiB / 16 threads = 64 MiB per thread: 256 -> 128 -> 64.
    assert_eq!(get_buffer_size(16, GIB), Some((64 * MIB) as usize));
}

#[test]
fn halves_to_floor_exactly() {
    // 16 MiB per thread is exactly the floor.
    assert_eq!(get_buffer_size(1, 16 * MIB), Some((16 * MIB) as usize));
}

#[test]
fn fails_below_floor() {
    // Less than 16 MiB per thread: the floor cannot be satisfied.
    assert_eq!(get_buffer_size(1, 16 * MIB - 1), None);
    assert_eq!(get_buffer_size(16, 16 * 16 * MIB - 1), None);
}

#[test]
fn uneven_share_rounds_to_power_of_two_fraction() {
    // 100 MiB / 3 threads = 33.3 MiB per thread: 256 -> ... -> 32.
    assert_eq!(get_buffer_size(3, 100 * MIB), Some((32 * MIB) as usize));
}

#[test]
fn product_never_exceeds_available() {
    for threads in 1..40usize {
        for avail in [17 * MIB, 300 * MIB, GIB, 3 * GIB + 12345] {
            if let Some(size) = get_buffer_size(threads, avail) {
                assert!(threads as u64 * size as u64 <= avail);
                assert!(size as u64 >= 16 * MIB);
            } else {
                // The per-thread share was below the floor.
                assert!(avail / (threads as u64) < 16 * MIB);
            }
        }
    }
}
