//! Performance records and scratch storage.
use pi_digits::perf::{
    json_escape, next_sleep, rss_bytes, sample_interval, CpuSnapshot, PerfRecorder,
};
use pi_digits::storage::{
    current_scratch_dir, mmap_bytes_live, mmap_bytes_total_allocated, mmap_count_live,
    mmap_count_total_allocated, set_scratch_dir, LimbStorage, Scratch,
};

fn at(wall_us: u64, user_us: u64, sys_us: u64) -> CpuSnapshot {
    CpuSnapshot { wall_us, user_us, sys_us }
}

#[test]
fn disabled_recorder_is_noop() {
    let mut r = PerfRecorder::disabled();
    assert_eq!(r.phase_start("hello", 0), None);
    assert_eq!(r.phase_end(5), None);
    assert_eq!(r.run_end(7), None);
    assert!(!r.is_enabled());
    assert_eq!(r.sample(9, 1, at(0, 0, 0)), None);
}

#[test]
fn json_escape_simple() {
    assert_eq!(json_escape("hello"), "\"hello\"");
    assert_eq!(json_escape("a\"b"), "\"a\\\"b\"");
    assert_eq!(json_escape("a\nb"), "\"a\\nb\"");
    assert_eq!(json_escape(""), "\"\"");
}

#[test]
fn json_escape_controls() {
    assert_eq!(json_escape("\\ \r \t \u{1} \u{1f} é"), "\"\\\\ \\r \\t \\u0001 \\u001f é\"");
}

#[test]
fn enabled_recorder_emits_events() {
    let (mut r, start) = PerfRecorder::open(100, "chudnovsky", 1_716_572_745_123, 16, at(0, 0, 0));
    assert!(r.is_enabled());
    let lines = [
        start,
        r.phase_start("p1", 12_900).unwrap(),
        r.phase_end(23_000).unwrap(),
        r.run_end(24_999).unwrap(),
    ];
    assert_eq!(lines.len(), 4);
    assert!(lines[0].contains("\"kind\":\"run-start\""));
    assert!(lines[0].contains("\"digits\":100"));
    assert!(lines[1].contains("\"kind\":\"phase-start\""));
    assert!(lines[1].contains("\"phase\":\"p1\""));
    assert!(lines[2].contains("\"kind\":\"phase-end\""));
    assert!(lines[2].contains("\"duration_ms\":"), "no duration in {}", lines[2]);
    assert!(lines[3].contains("\"kind\":\"run-end\""));
    assert_eq!(
        lines[0],
        "{\"t_ms\":0,\"kind\":\"run-start\",\"unix_ms\":1716572745123,\"digits\":100,\"algorithm\":\"chudnovsky\",\"cores\":16}"
    );
    assert_eq!(lines[1], "{\"t_ms\":12,\"kind\":\"phase-start\",\"phase\":\"p1\"}");
    assert_eq!(
        lines[2],
        "{\"t_ms\":23,\"kind\":\"phase-end\",\"phase\":\"p1\",\"duration_ms\":10}"
    );
    assert_eq!(lines[3], "{\"t_ms\":24,\"kind\":\"run-end\"}");
    // Without a phase there is none to end.
    assert_eq!(r.phase_end(30_000), None);
}

#[test]
fn samples_carry_the_phase_and_the_load() {
    let (mut r, _) = PerfRecorder::open(1, "x", 0, 1, at(1_000, 500, 100));
    assert_eq!(
        r.sample(5_000, 482 * 1_048_576 + 5, at(3_000, 2_600, 300)).unwrap(),
        "{\"t_ms\":5,\"kind\":\"sample\",\"phase\":\"\",\"rss_mb\":482,\"cpu_cores\":1.150}"
    );
    r.phase_start("binary splitting", 6_000);
    // No wall time since the last sample.
    assert_eq!(
        r.sample(7_000, 0, at(3_000, 9_000, 300)).unwrap(),
        "{\"t_ms\":7,\"kind\":\"sample\",\"phase\":\"binary splitting\",\"rss_mb\":0,\"cpu_cores\":0.000}"
    );
    // Two thirds of a core, and clocks that run backwards.
    assert_eq!(
        r.sample(8_000, 0, at(6_000, 11_000, 0)).unwrap(),
        "{\"t_ms\":8,\"kind\":\"sample\",\"phase\":\"binary splitting\",\"rss_mb\":0,\"cpu_cores\":0.667}"
    );
}

#[test]
fn loads_are_printed_as_doubles_are() {
    for (busy, wall) in [(1_u64, 3_u64), (1, 8), (15, 32_000), (9_700_123, 1_000_007), (1, 16_000)] {
        let (mut r, _) = PerfRecorder::open(1, "x", 0, 1, at(0, 0, 0));
        let line = r.sample(0, 0, at(wall, busy, 0)).unwrap();
        let cores = busy as f64 / wall as f64;
        let expected = format!("\"cpu_cores\":{cores:.3}}}");
        assert!(line.ends_with(&expected), "{line} against {expected}");
    }
}

#[test]
fn the_sampler_sleeps_in_steps() {
    assert_eq!(sample_interval(0), 10);
    assert_eq!(sample_interval(500), 500);
    assert_eq!(next_sleep(120, 0), 50);
    assert_eq!(next_sleep(120, 100), 20);
    assert_eq!(next_sleep(120, 120), 0);
}

#[test]
fn rss_bytes_nonzero() {
    let table = "Name:\tpi\nVmPeak:\t    9000 kB\nVmRSS:\t    4321 kB\nThreads:\t1\n";
    let rss = rss_bytes(table.as_bytes()).unwrap();
    assert!(rss > 0, "expected nonzero RSS, got {rss}");
    assert_eq!(rss, 4_321 * 1024);
    assert_eq!(rss_bytes(b"Name:\tpi\n"), Some(0));
    assert_eq!(rss_bytes(b"VmRSS: 18446744073709551615 kB\n"), None);
}

#[test]
fn memory_path_basics() {
    let mut scratch = Scratch::new(usize::MAX);
    let mut s = LimbStorage::allocate_zeroed(&mut scratch, 1, 5);
    assert_eq!(s.len(), 5);
    assert!(!s.is_mapped());
    for (i, v) in s.as_mut_slice().iter_mut().enumerate() {
        *v = i as u64;
    }
    assert_eq!(s.as_slice(), &[0, 1, 2, 3, 4]);
    s.truncate(3);
    assert_eq!(s.as_slice(), &[0, 1, 2]);
    s.push(99);
    assert_eq!(s.as_slice(), &[0, 1, 2, 99]);
    assert_eq!(s.pop(), Some(99));
    s.clear();
    assert!(s.is_empty());
    assert_eq!(s.pop(), None);
    assert_eq!(s.release(&mut scratch), None);
}

#[test]
fn mapped_path_basics() {
    let mut scratch = Scratch::new(2);
    let mut s = LimbStorage::allocate_zeroed(&mut scratch, 1, 5);
    assert_eq!(s.len(), 5);
    assert!(s.is_mapped());
    for (i, v) in s.as_mut_slice().iter_mut().enumerate() {
        *v = (i as u64) * 10;
    }
    assert_eq!(s.as_slice(), &[0, 10, 20, 30, 40]);
    s.truncate(3);
    assert_eq!(s.as_slice(), &[0, 10, 20]);
    assert_eq!(s.pop(), Some(20));
    s.clear();
    assert_eq!(s.len(), 0);
    assert_eq!(s.pop(), None);
}

#[test]
fn from_vec_migrates_when_large() {
    let mut scratch = Scratch::new(4);
    let s = LimbStorage::from_vec(&mut scratch, 1, vec![1, 2, 3]);
    assert!(!s.is_mapped());
    let s = LimbStorage::from_vec(&mut scratch, 1, vec![1, 2, 3, 4]);
    assert!(s.is_mapped());
    assert_eq!(s.as_slice(), &[1, 2, 3, 4]);
    let copy = s.duplicate(&mut scratch, 1);
    assert!(copy.is_mapped());
    assert!(copy.same(&s));
}

#[test]
fn released_files_are_named_for_removal() {
    let mut scratch = Scratch::new(1);
    let s = LimbStorage::allocate_zeroed(&mut scratch, 4242, 8);
    assert_eq!(s.release(&mut scratch), Some("bignum-4242-1.dat".to_string()));
    let s = LimbStorage::allocate_zeroed(&mut scratch, 4242, 8);
    assert_eq!(s.release(&mut scratch), Some("bignum-4242-2.dat".to_string()));
}

#[test]
fn live_counters_track_lifetime() {
    let mut scratch = Scratch::new(1);
    let before_live = mmap_count_live(&scratch);
    let before_total = mmap_count_total_allocated(&scratch);
    let s = LimbStorage::allocate_zeroed(&mut scratch, 1, 16);
    assert_eq!(mmap_count_live(&scratch), before_live + 1);
    assert_eq!(mmap_count_total_allocated(&scratch), before_total + 1);
    assert_eq!(mmap_bytes_live(&scratch), 128);
    s.release(&mut scratch);
    assert_eq!(mmap_count_live(&scratch), before_live);
    assert_eq!(mmap_count_total_allocated(&scratch), before_total + 1);
    assert_eq!(mmap_bytes_live(&scratch), 0);
    assert_eq!(mmap_bytes_total_allocated(&scratch), 128);
}

#[test]
fn scratch_files_go_where_they_are_sent() {
    let mut scratch = Scratch::new(1);
    assert_eq!(current_scratch_dir(&scratch, "/tmp"), "/tmp");
    set_scratch_dir(&mut scratch, "/fast/disk".to_string());
    assert_eq!(current_scratch_dir(&scratch, "/tmp"), "/fast/disk");
}
