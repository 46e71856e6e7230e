use fractal_zoomer::dispatch::{assign_strips, StripAssignment};

fn rows(strips: &[StripAssignment]) -> Vec<(usize, u32, u32)> {
    strips.iter().map(|s| (s.worker, s.y_start, s.y_end)).collect()
}

/// The strips are not empty, lie end to end, and reach from row 0 to `height`.
fn tiles(strips: &[StripAssignment], height: u32) -> bool {
    let mut y = 0;
    for s in strips {
        if s.y_start != y || s.y_end <= s.y_start {
            return false;
        }
        y = s.y_end;
    }
    y == height
}

#[test]
fn one_worker_takes_the_whole_frame() {
    assert_eq!(rows(&assign_strips(32, &vec![32], 1)), vec![(0, 0, 32)]);
    assert_eq!(rows(&assign_strips(32, &vec![5], 1)), vec![(0, 0, 32)]);
    assert_eq!(rows(&assign_strips(32, &vec![], 1)), vec![(0, 0, 32)]);
}

#[test]
fn last_worker_takes_the_remainder() {
    assert_eq!(rows(&assign_strips(100, &vec![80, 20], 2)), vec![(0, 0, 80), (1, 80, 100)]);
    assert_eq!(
        rows(&assign_strips(100, &vec![33, 33, 33], 3)),
        vec![(0, 0, 33), (1, 33, 66), (2, 66, 100)]
    );
    assert_eq!(
        rows(&assign_strips(100, &vec![33, 33], 3)),
        vec![(0, 0, 33), (1, 33, 66), (2, 66, 100)]
    );
}

#[test]
fn no_workers_or_no_rows_give_no_strips() {
    assert!(assign_strips(100, &vec![], 0).is_empty());
    assert!(assign_strips(100, &vec![50, 50], 0).is_empty());
    assert!(assign_strips(0, &vec![1, 1], 2).is_empty());
    assert!(assign_strips(0, &vec![], 1).is_empty());
}

#[test]
fn worker_without_rows_is_skipped() {
    assert_eq!(rows(&assign_strips(10, &vec![0, 4, 0, 0], 4)), vec![(1, 0, 4), (3, 4, 10)]);
    assert_eq!(rows(&assign_strips(10, &vec![], 3)), vec![(2, 0, 10)]);
}

#[test]
fn strip_is_cut_at_the_end_of_the_frame() {
    assert_eq!(rows(&assign_strips(10, &vec![7, 7, 7], 3)), vec![(0, 0, 7), (1, 7, 10)]);
    assert_eq!(rows(&assign_strips(10, &vec![10, 3], 2)), vec![(0, 0, 10)]);
    assert_eq!(
        rows(&assign_strips(u32::MAX, &vec![u32::MAX, u32::MAX], 2)),
        vec![(0, 0, u32::MAX)]
    );
    assert_eq!(
        rows(&assign_strips(u32::MAX, &vec![u32::MAX - 1, u32::MAX], 3)),
        vec![(0, 0, u32::MAX - 1), (1, u32::MAX - 1, u32::MAX)]
    );
}

#[test]
fn more_workers_than_rows() {
    assert_eq!(rows(&assign_strips(2, &vec![1, 1, 1, 1, 1], 5)), vec![(0, 0, 1), (1, 1, 2)]);
    assert_eq!(rows(&assign_strips(1, &vec![0, 0, 0], 3)), vec![(2, 0, 1)]);
}

#[test]
fn strips_cover_the_frame_exactly() {
    let mut seed: u64 = 12345;
    let mut next = move |bound: u64| {
        seed = seed.wrapping_mul(6364136223846793005).wrapping_add(1442695040888963407);
        (seed >> 33) % bound
    };
    for _ in 0..500 {
        let workers = 1 + next(8) as usize;
        let height = 1 + next(200) as u32;
        let shares: Vec<u32> = (0..workers).map(|_| next(120) as u32).collect();
        let strips = assign_strips(height, &shares, workers);
        assert!(!strips.is_empty());
        assert!(tiles(&strips, height), "{:?} for {} rows and {:?}", strips, height, shares);
        assert!(strips.windows(2).all(|w| w[0].worker < w[1].worker));
        assert!(strips.iter().all(|s| s.worker < workers));
        for row in 0..height {
            let holders = strips.iter().filter(|s| s.y_start <= row && row < s.y_end).count();
            assert_eq!(holders, 1);
        }
    }
}
