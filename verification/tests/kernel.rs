use mandelbrot::frame::LANES;
use mandelbrot::kernel::{escape_time_of, run, LaneBatch, MAX_ITER};

/// The divergence flags of the orbit of `c`, one for each of `steps` points,
/// the first of them zero.
fn orbit_flags(c: (f64, f64), steps: usize) -> Vec<bool> {
    let (mut re, mut im) = (0.0f64, 0.0f64);
    let mut flags = Vec::new();
    for _ in 0..steps {
        let (re_sq, im_sq) = (re * re, im * im);
        flags.push(!(re_sq + im_sq <= 4.0));
        let next = (re_sq - im_sq + c.0, 2.0 * re * im + c.1);
        re = next.0;
        im = next.1;
    }
    flags
}

/// The single-point kernel.
fn scalar(c: (f64, f64)) -> u32 {
    escape_time_of(&orbit_flags(c, MAX_ITER as usize))
}

/// The batched kernel, stepping until the batch says that it is done.
fn batched(points: [(f64, f64); 8]) -> [u32; 8] {
    let mut batch = LaneBatch::new();
    let mut orbit = [(0.0f64, 0.0f64); 8];
    loop {
        let mut exceeds = [false; 8];
        for lane in 0..8 {
            let (re, im) = orbit[lane];
            exceeds[lane] = !(re * re + im * im <= 4.0);
            orbit[lane] = (re * re - im * im + points[lane].0, 2.0 * re * im + points[lane].1);
        }
        if !batch.step(&exceeds) {
            return batch.counts();
        }
    }
}

/// One step of eight orbits: their flags, and the orbits that follow.
fn advance(state: ([(f64, f64); 8], [(f64, f64); 8])) -> (([(f64, f64); 8], [(f64, f64); 8]), [bool; 8]) {
    let (points, mut orbit) = state;
    let mut exceeds = [false; 8];
    for lane in 0..8 {
        let (re, im) = orbit[lane];
        exceeds[lane] = !(re * re + im * im <= 4.0);
        orbit[lane] = (re * re - im * im + points[lane].0, 2.0 * re * im + points[lane].1);
    }
    ((points, orbit), exceeds)
}

/// The batched kernel, driven by the library.
fn driven(points: [(f64, f64); 8]) -> [u32; 8] {
    run((points, [(0.0, 0.0); 8]), &advance)
}

/// Feeds rows of flags from the first on, and past the last nothing but
/// raised flags.
fn fed(rows: &[[bool; 8]]) -> [u32; 8] {
    run(0usize, &|at: usize| (at + 1, if at < rows.len() { rows[at] } else { [true; 8] }))
}

fn rows_of(points: [(f64, f64); 8], steps: usize) -> Vec<[bool; 8]> {
    let columns: Vec<Vec<bool>> = points.iter().map(|c| orbit_flags(*c, steps)).collect();
    (0..steps)
        .map(|j| {
            let mut row = [false; 8];
            for lane in 0..8 {
                row[lane] = columns[lane][j];
            }
            row
        })
        .collect()
}

const SAMPLE: [(f64, f64); 8] = [
    (0.0, 0.0),
    (2.0, 0.0),
    (-0.1, 0.1),
    (5.0, 5.0),
    (3.0, 0.0),
    (0.5, 0.0),
    (-0.75, 0.1),
    (0.26, 0.0),
];

#[test]
fn max_iter_is_256() {
    assert_eq!(MAX_ITER, 256);
}

#[test]
fn origin_is_in_the_set() {
    assert_eq!(scalar((0.0, 0.0)), MAX_ITER);
    assert_eq!(batched([(0.0, 0.0); 8]), [MAX_ITER; 8]);
}

#[test]
fn far_points_leave_within_two_steps() {
    assert_eq!(scalar((3.0, 0.0)), 1);
    assert_eq!(scalar((5.0, 5.0)), 1);
    assert_eq!(scalar((0.0, -2.5)), 1);
    assert!(scalar((2.0, 0.0)) <= 2);
    let ks = batched([(3.0, 0.0); 8]);
    assert!(ks.iter().all(|k| *k <= 2));
}

#[test]
fn exact_counts_of_known_points() {
    assert_eq!(scalar((2.0, 0.0)), 2);
    assert_eq!(scalar((0.0, 2.0)), 2);
    assert_eq!(scalar((1.0, 0.0)), 3);
    assert_eq!(scalar((0.5, 0.0)), 5);
    assert_eq!(scalar((0.4, 0.4)), 9);
    assert_eq!(scalar((0.26, 0.0)), 30);
    assert_eq!(scalar((-0.75, 0.1)), 33);
    assert_eq!(scalar((-0.1, 0.1)), 256);
    assert_eq!(scalar((0.0, 1.0)), 256);
}

#[test]
fn a_point_on_the_rim_has_not_left() {
    // the orbit of -2 reaches 2 and stays there: the norm is the threshold itself
    assert_eq!(scalar((-2.0, 0.0)), MAX_ITER);
    assert_eq!(escape_time_of(&[false, false, false]), 3);
}

#[test]
fn batch_agrees_with_the_single_point_kernel() {
    let ks = batched(SAMPLE);
    for lane in 0..LANES {
        assert_eq!(ks[lane], scalar(SAMPLE[lane]), "lane {lane}");
    }
    assert_eq!(ks, [256, 2, 256, 1, 1, 5, 33, 30]);
}

#[test]
fn driven_batch_agrees_with_the_single_point_kernel() {
    let ks = driven(SAMPLE);
    for lane in 0..LANES {
        assert_eq!(ks[lane], scalar(SAMPLE[lane]), "lane {lane}");
    }
    assert_eq!(ks, batched(SAMPLE));
    assert_eq!(fed(&rows_of(SAMPLE, 300)), ks);
}

#[test]
fn driver_stops_as_soon_as_the_batch_is_done() {
    let calls = std::cell::Cell::new(0usize);
    let count_calls = |state| {
        calls.set(calls.get() + 1);
        advance(state)
    };
    // every orbit has left when it is tested for the fourth time
    let points = [(1.0, 0.0), (3.0, 0.0), (2.0, 0.0), (5.0, 5.0), (3.0, 0.0), (1.0, 0.0), (2.0, 0.0), (0.0, 2.0)];
    assert_eq!(run((points, [(0.0, 0.0); 8]), &count_calls), [3, 1, 2, 1, 1, 3, 2, 2]);
    assert_eq!(calls.get(), 4);
    calls.set(0);
    assert_eq!(run(([(0.0, 0.0); 8], [(0.0, 0.0); 8]), &count_calls), [256; 8]);
    assert_eq!(calls.get(), 256);
}

#[test]
fn early_exit_changes_nothing() {
    let points = [(3.0, 0.0), (5.0, 5.0), (2.0, 0.0), (1.0, 0.0), (0.5, 0.0), (0.4, 0.4), (0.26, 0.0), (-0.75, 0.1)];
    let rows = rows_of(points, 256);
    // stepping through every row, whether or not the batch is done
    let mut batch = LaneBatch::new();
    for row in &rows {
        batch.step(row);
    }
    assert_eq!(batch.counts(), batched(points));
    assert_eq!(batch.counts(), driven(points));
    assert_eq!(batch.counts(), [1, 1, 2, 3, 5, 9, 30, 33]);
}

#[test]
fn kernel_is_repeatable() {
    for c in SAMPLE {
        assert_eq!(scalar(c), scalar(c));
    }
    assert_eq!(batched(SAMPLE), batched(SAMPLE));
    assert_eq!(driven(SAMPLE), driven(SAMPLE));
}

#[test]
fn an_undecided_test_counts_as_having_left() {
    // the orbit overflows and the norm is no number any more
    let flags = orbit_flags((1.0e200, 1.0e200), 8);
    assert_eq!(flags, vec![false, true, true, true, true, true, true, true]);
    assert_eq!(escape_time_of(&flags), 1);
}

#[test]
fn escape_time_is_the_first_raised_flag() {
    assert_eq!(escape_time_of(&[]), 0);
    assert_eq!(escape_time_of(&[true]), 0);
    assert_eq!(escape_time_of(&[false]), 1);
    assert_eq!(escape_time_of(&[false, false, true, false, true]), 2);
    assert_eq!(escape_time_of(&[false, true, false]), 1);
}

#[test]
fn escape_time_stops_at_max_iter() {
    let mut flags = vec![false; 300];
    assert_eq!(escape_time_of(&flags), 256);
    flags[256] = true;
    assert_eq!(escape_time_of(&flags), 256);
    flags[255] = true;
    assert_eq!(escape_time_of(&flags), 255);
    assert_eq!(escape_time_of(&vec![false; 256]), 256);
    assert_eq!(escape_time_of(&vec![false; 255]), 255);
}

#[test]
fn a_new_batch_is_unmarked() {
    let batch = LaneBatch::new();
    assert_eq!(batch.steps(), 0);
    assert_eq!(batch.counts(), [0; 8]);
    assert!(!batch.all_escaped());
    assert!(!batch.is_done());
    for lane in 0..LANES {
        assert_eq!(batch.count(lane), 0);
        assert!(!batch.escaped(lane));
    }
}

#[test]
fn a_step_counts_unmarked_lanes_only() {
    let mut batch = LaneBatch::new();
    let more = batch.step(&[false, true, false, false, false, false, false, false]);
    assert!(more);
    assert_eq!(batch.steps(), 1);
    assert_eq!(batch.counts(), [1, 0, 1, 1, 1, 1, 1, 1]);
    assert!(batch.escaped(1));
    assert!(!batch.escaped(0));
    let more = batch.step(&[true, false, false, false, false, false, false, true]);
    assert!(more);
    assert_eq!(batch.counts(), [1, 0, 2, 2, 2, 2, 2, 1]);
    assert_eq!(batch.count(2), 2);
    assert_eq!(batch.count(7), 1);
}

#[test]
fn a_marked_lane_stays_marked() {
    let mut batch = LaneBatch::new();
    batch.step(&[true, false, false, false, false, false, false, false]);
    for _ in 0..10 {
        batch.step(&[false; 8]);
        assert!(batch.escaped(0));
        assert_eq!(batch.count(0), 0);
    }
    assert_eq!(batch.count(1), 11);
}

#[test]
fn a_batch_is_done_when_every_lane_is_marked() {
    let mut batch = LaneBatch::new();
    assert!(batch.step(&[true, true, true, true, false, false, false, false]));
    assert!(!batch.is_done());
    assert!(!batch.step(&[false, false, false, false, true, true, true, true]));
    assert!(batch.all_escaped());
    assert!(batch.is_done());
    assert_eq!(batch.counts(), [0, 0, 0, 0, 1, 1, 1, 1]);
    // further steps move the clock and nothing else
    assert!(!batch.step(&[false; 8]));
    assert_eq!(batch.counts(), [0, 0, 0, 0, 1, 1, 1, 1]);
    assert_eq!(batch.steps(), 3);
}

#[test]
fn a_batch_is_done_after_max_iter_steps() {
    let mut batch = LaneBatch::new();
    for step in 1..=256u32 {
        let more = batch.step(&[false; 8]);
        assert_eq!(more, step < 256, "step {step}");
    }
    assert!(batch.is_done());
    assert!(!batch.all_escaped());
    assert_eq!(batch.steps(), 256);
    assert_eq!(batch.counts(), [256; 8]);
    // a batch that has run its course ignores what it is fed
    assert!(!batch.step(&[true; 8]));
    assert_eq!(batch.steps(), 256);
    assert_eq!(batch.counts(), [256; 8]);
    assert!(!batch.escaped(0));
}

#[test]
fn rows_behind_the_end_of_a_run_are_ignored() {
    let mut rows = vec![[false; 8]; 3];
    rows.push([true; 8]);
    rows.push([false; 8]);
    rows.push([false; 8]);
    assert_eq!(fed(&rows), [3; 8]);
    assert_eq!(fed(&[]), [0; 8]);
    assert_eq!(fed(&vec![[false; 8]; 400]), [256; 8]);
}

#[test]
fn lanes_do_not_interact() {
    let rows = [
        [false, true, false, false, false, false, false, false],
        [false, false, true, false, false, false, false, false],
        [true, false, false, false, false, false, false, false],
    ];
    let ks = fed(&rows);
    for lane in 0..LANES {
        let column: Vec<bool> = rows.iter().map(|row| row[lane]).collect();
        assert_eq!(ks[lane], escape_time_of(&column), "lane {lane}");
    }
    assert_eq!(ks, [2, 0, 1, 3, 3, 3, 3, 3]);
}
