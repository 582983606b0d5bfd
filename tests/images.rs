use image_fingerprint::corner::{grads, harris, Corner};
use image_fingerprint::dhash::{dhash, dhash_once, dhash_rotations, dhash_small_luma, Filter, LumaGrid, RgbaGrid};
use image_fingerprint::hash_dir::{hashing_step, Poll, Progress, Response};
use image_fingerprint::ihash::IHash;

fn gray_grid(width: u32, height: u32, f: impl Fn(u32, u32) -> u8) -> LumaGrid {
    let mut pixels = Vec::new();
    for y in 0..height {
        for x in 0..width {
            pixels.push(f(x, y));
        }
    }
    LumaGrid { width, height, pixels }
}

fn color_grid(width: u32, height: u32, f: impl Fn(u32, u32) -> [u8; 3]) -> RgbaGrid {
    let mut rgba = Vec::new();
    for y in 0..height {
        for x in 0..width {
            let [r, g, b] = f(x, y);
            rgba.extend_from_slice(&[r, g, b, 255]);
        }
    }
    RgbaGrid { width, height, rgba }
}

#[test]
fn small_luma_bits_are_row_major_msb_first() {
    let rising = gray_grid(9, 8, |x, _| (x * 10) as u8);
    assert_eq!(dhash_small_luma(&rising).value, u64::MAX);
    let flat = gray_grid(9, 8, |_, _| 77);
    assert_eq!(dhash_small_luma(&flat).value, 0);
    let first_row = gray_grid(9, 8, |x, y| if y == 0 { (x * 10) as u8 } else { 5 });
    assert_eq!(dhash_small_luma(&first_row).value, 0xFF00_0000_0000_0000);
    let last_pixel = gray_grid(9, 8, |x, y| if y == 7 && x == 8 { 1 } else { 0 });
    assert_eq!(dhash_small_luma(&last_pixel).value, 1);
}

#[test]
fn equal_neighbours_give_zero_bits() {
    let steps = gray_grid(9, 8, |x, _| if x % 2 == 0 { 100 } else { 50 });
    // pixel 1 is darker, pixel 2 brighter, ...: bits 0,1,0,1,... per row
    assert_eq!(dhash_small_luma(&steps).value, 0x5555_5555_5555_5555);
}

#[test]
fn dhash_reads_luma_of_colour_pixels() {
    // pure blue 200 has luma 14, pure red 100 has luma 21: red is brighter
    let image = color_grid(9, 8, |x, _| if x % 2 == 0 { [0, 0, 200] } else { [100, 0, 0] });
    assert_eq!(dhash(&image).value, 0xAAAA_AAAA_AAAA_AAAA);
}

#[test]
fn dhash_of_gradient_is_all_ones() {
    let image = color_grid(18, 16, |x, _| {
        let v = (x * 14) as u8;
        [v, v, v]
    });
    assert_eq!(dhash(&image).value, u64::MAX);
    let falling = color_grid(18, 16, |x, _| {
        let v = 255 - (x * 14) as u8;
        [v, v, v]
    });
    assert_eq!(dhash(&falling).value, 0);
}

#[test]
fn dhash_is_deterministic() {
    let image = color_grid(31, 23, |x, y| [(x * 7 + y * 3) as u8, (x * y) as u8, (y * 11) as u8]);
    for filter in [Filter::Nearest, Filter::Triangle, Filter::CatmullRom, Filter::Gaussian, Filter::Lanczos3] {
        let first = dhash_once(&image, filter);
        let second = dhash_once(&image, filter);
        assert_eq!(first, second);
    }
    assert_eq!(dhash(&image), dhash_once(&image, Filter::Triangle));
}

#[test]
fn rotations_really_rotate() {
    let image = color_grid(9, 8, |x, _| {
        let v = (x * 20) as u8;
        [v, v, v]
    });
    let hashes = dhash_rotations(&image, Filter::Triangle);
    assert_eq!(hashes.len(), 4);
    assert_eq!(hashes[0].value, u64::MAX);
    // turned half way round, every row falls from left to right
    assert_eq!(hashes[2].value, 0);
    assert_eq!(hashes[0], dhash(&image));
}

#[test]
fn gradient_products_of_a_bright_bottom_row() {
    let grid = gray_grid(3, 3, |_, y| if y == 2 { 10 } else { 0 });
    let kx = [1, 0, -1, 2, 0, -2, 1, 0, -1];
    let ky = [1, 2, 1, 0, 0, 0, -1, -2, -1];
    let t = grads(&grid, &kx, &ky);
    assert_eq!(t.len(), 9);
    for (i, v) in t.iter().enumerate() {
        if i == 4 {
            assert_eq!(*v, (0, 0, 1600));
        } else {
            assert_eq!(*v, (0, 0, 0));
        }
    }
}

#[test]
fn harris_single_pixel_windows() {
    let grid = gray_grid(3, 3, |_, y| if y == 2 { 10 } else { 0 });
    let all = harris(&grid, 1, 9, i128::MIN);
    assert_eq!(all.len(), 9);
    assert_eq!(all[8], Corner { index: 4, score: -2_560_000 });
    for c in &all[..8] {
        assert_eq!(c.score, 0);
    }
    let above = harris(&grid, 1, 9, -1);
    assert_eq!(above.len(), 8);
    let few = harris(&grid, 1, 3, -1);
    assert_eq!(few.len(), 3);
}

#[test]
fn harris_suppresses_non_maxima() {
    let grid = gray_grid(3, 3, |_, y| if y == 2 { 10 } else { 0 });
    // the only window centre scores below its zero-scored neighbours
    assert!(harris(&grid, 3, 10, i128::MIN).is_empty());
}

fn square_image() -> LumaGrid {
    gray_grid(20, 20, |x, y| if (6..14).contains(&x) && (6..14).contains(&y) { 200 } else { 10 })
}

#[test]
fn harris_finds_square_corners() {
    let grid = square_image();
    let corners = harris(&grid, 3, 4, 0);
    assert_eq!(corners.len(), 4);
    for c in &corners {
        let (x, y) = (c.index % 20, c.index / 20);
        assert!(x <= 7 || x >= 12, "corner at {} {}", x, y);
        assert!(y <= 7 || y >= 12, "corner at {} {}", x, y);
    }
}

#[test]
fn harris_truncates_before_thresholding() {
    let grid = square_image();
    let all = harris(&grid, 3, usize::MAX, i128::MIN);
    assert!(all.len() > 5);
    for pair in all.windows(2) {
        assert!(pair[0].score >= pair[1].score);
    }
    // keep the first five by score, then drop those not above the threshold
    let threshold = all[2].score;
    let limited = harris(&grid, 3, 5, threshold);
    let expected: Vec<i128> = all[..5].iter().map(|c| c.score).filter(|s| *s > threshold).collect();
    let got: Vec<i128> = limited.iter().map(|c| c.score).collect();
    assert_eq!(got, expected);
    assert!(limited.len() <= 5);
    for c in &limited {
        assert!(c.score > threshold);
    }
}

#[test]
fn harris_respects_corner_limit() {
    let grid = square_image();
    for n in 0..6 {
        let corners = harris(&grid, 5, n, i128::MIN);
        assert!(corners.len() <= n);
    }
}

#[test]
fn response_collects_until_the_channel_is_empty() {
    let mut response = Response::new(3);
    assert_eq!(response.content_length(), 3);
    let polled = vec![
        Poll::Item((IHash::new(1), "a.png".to_string())),
        Poll::Item((IHash::new(2), "b.png".to_string())),
        Poll::Empty,
        Poll::Item((IHash::new(3), "c.png".to_string())),
    ];
    let chunk = response.chunk(polled);
    assert_eq!(chunk.len(), 2);
    assert_eq!(chunk[1].1, "b.png");
    assert!(!response.complete());
    let last = response.chunk(vec![Poll::Item((IHash::new(3), "c.png".to_string())), Poll::Disconnected]);
    assert_eq!(last.len(), 1);
    assert!(response.complete());
}

#[test]
fn hashing_step_reports_progress_then_finish() {
    let mut response = Response::new(2);
    let (progress, hashed) = hashing_step(
        &mut response,
        0,
        vec![Poll::Item((IHash::new(7), "x.png".to_string())), Poll::Empty],
    );
    assert_eq!(hashed, 1);
    match progress {
        Progress::Advanced { hashed, total, hashes } => {
            assert_eq!(hashed, 1);
            assert_eq!(total, 2);
            assert_eq!(hashes.len(), 1);
        }
        _ => panic!("expected progress"),
    }
    let (progress, hashed) = hashing_step(&mut response, hashed, vec![Poll::Disconnected]);
    assert_eq!(hashed, 1);
    assert!(matches!(progress, Progress::Finished));
}

#[test]
fn last_results_arrive_before_finish() {
    let mut response = Response::new(1);
    let (progress, hashed) = hashing_step(
        &mut response,
        0,
        vec![Poll::Item((IHash::new(5), "last.png".to_string())), Poll::Disconnected],
    );
    assert_eq!(hashed, 1);
    assert!(response.complete());
    match progress {
        Progress::Advanced { hashes, .. } => assert_eq!(hashes[0].1, "last.png"),
        _ => panic!("expected the last results"),
    }
    let (progress, _) = hashing_step(&mut response, hashed, vec![Poll::Disconnected]);
    assert!(matches!(progress, Progress::Finished));
}

#[test]
fn dhash_test() {
    let image = color_grid(40, 30, |x, y| {
        let v = ((x * 5 + y * 3) % 256) as u8;
        [v, 255 - v, (x * y % 256) as u8]
    });
    let hash = dhash(&image);
    assert_eq!(hash, dhash(&image));
    assert_eq!(hash, dhash_once(&image, Filter::Triangle));
}

#[test]
fn empty_image_hashes_to_zero() {
    let image = RgbaGrid { width: 0, height: 0, rgba: vec![] };
    assert_eq!(dhash(&image).value, 0);
    let hashes = dhash_rotations(&image, Filter::Nearest);
    assert_eq!(hashes.len(), 4);
    for h in hashes {
        assert_eq!(h.value, 0);
    }
}

#[test]
fn quarter_turn_shifts_rotation_hashes() {
    let image = color_grid(12, 10, |x, y| {
        let v = ((x * 17 + y * y * 5) % 256) as u8;
        [v, v, v]
    });
    // the same picture turned a quarter clockwise
    let turned = color_grid(10, 12, |x, y| {
        let (sx, sy) = (y, 9 - x);
        let v = ((sx * 17 + sy * sy * 5) % 256) as u8;
        [v, v, v]
    });
    let a = dhash_rotations(&image, Filter::Triangle);
    let b = dhash_rotations(&turned, Filter::Triangle);
    for i in 0..4 {
        assert_eq!(b[i], a[(i + 1) % 4]);
    }
}
