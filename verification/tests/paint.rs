use mandelbrot::color::colorize;
use mandelbrot::frame::{Resolution, CHUNK_BYTES, LANES};
use mandelbrot::paint::paint;

fn bytes_of(k: u32) -> [u8; 4] {
    let c = colorize(k);
    [c.r, c.g, c.b, c.a]
}

#[test]
fn a_full_chunk_is_painted_lane_by_lane() {
    let mut chunk = [0u8; 32];
    let counts = [0, 1, 2, 3, 200, 255, 256, 7];
    paint(&mut chunk, &counts);
    for lane in 0..LANES {
        assert_eq!(chunk[4 * lane..4 * lane + 4], bytes_of(counts[lane]), "lane {lane}");
    }
    assert_eq!(chunk[4..8], [47, 7, 243, 255]);
    assert_eq!(chunk[16..20], [184, 120, 216, 255]);
}

#[test]
fn alpha_is_written_too() {
    let mut chunk = [0u8; 8];
    paint(&mut chunk, &[0, 0]);
    assert_eq!(chunk, [0, 0, 0, 255, 0, 0, 0, 255]);
}

#[test]
fn a_short_chunk_takes_the_counts_it_has_room_for() {
    let mut chunk = [9u8; 12];
    paint(&mut chunk, &[1, 2, 3, 4, 5, 6, 7, 8]);
    assert_eq!(chunk[0..4], bytes_of(1));
    assert_eq!(chunk[4..8], bytes_of(2));
    assert_eq!(chunk[8..12], bytes_of(3));
}

#[test]
fn bytes_behind_the_last_count_are_kept() {
    let mut bytes = [9u8; 10];
    paint(&mut bytes, &[1]);
    assert_eq!(bytes, [47, 7, 243, 255, 9, 9, 9, 9, 9, 9]);
    let mut bytes = [9u8; 7];
    paint(&mut bytes, &[1, 1, 1]);
    assert_eq!(bytes, [47, 7, 243, 255, 9, 9, 9]);
}

#[test]
fn nothing_to_paint() {
    let mut bytes = [9u8; 3];
    paint(&mut bytes, &[1, 2]);
    assert_eq!(bytes, [9, 9, 9]);
    let mut bytes = [9u8; 8];
    paint(&mut bytes, &[]);
    assert_eq!(bytes, [9; 8]);
    let mut none: [u8; 0] = [];
    paint(&mut none, &[1]);
}

#[test]
fn painting_by_chunks_paints_the_frame() {
    let r = match Resolution::new(7, 5) {
        Ok(r) => r,
        Err(why) => panic!("{why:?}"),
    };
    let counts: Vec<u32> = (0..r.pixel_count() as u32).map(|p| p * 37 % 257).collect();
    let mut whole = r.blank_buffer();
    paint(&mut whole, &counts);
    let mut by_chunks = r.blank_buffer();
    let mut seen = 0;
    for (n, chunk) in by_chunks.chunks_mut(CHUNK_BYTES).enumerate() {
        let from = n * LANES;
        let to = usize::min(from + LANES, counts.len());
        paint(chunk, &counts[from..to]);
        seen += 1;
    }
    assert_eq!(seen, r.chunk_count());
    assert_eq!(by_chunks, whole);
    for p in 0..r.pixel_count() {
        assert_eq!(whole[4 * p..4 * p + 4], bytes_of(counts[p]), "pixel {p}");
    }
}

#[test]
fn painting_twice_is_painting_once() {
    let counts = [3, 1, 4, 1, 5, 9, 2, 6];
    let mut once = [0u8; 32];
    paint(&mut once, &counts);
    let mut twice = once;
    paint(&mut twice, &counts);
    assert_eq!(once, twice);
}
