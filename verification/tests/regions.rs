use assetpacker::allocator::Region;

fn overlap(a: (u32, u32, u32, u32), b: (u32, u32, u32, u32)) -> bool {
    a.0 < b.2 && b.0 < a.2 && a.1 < b.3 && b.1 < a.3
}

#[test]
fn empty_region_puts_the_first_rectangle_at_its_origin() {
    let mut region = Region::new(100, 50);
    assert_eq!((region.width, region.height, region.count), (100, 50, 0));
    assert_eq!(region.place(100, 50), Some((0, 0)));
    assert_eq!(region.count, 1);
    assert_eq!(region.place(1, 1), None);
    assert_eq!(region.count, 1);
    let mut other = Region::new(100, 50);
    assert_eq!(other.place(30, 20), Some((0, 0)));
}

#[test]
fn rectangle_that_does_not_fit_gets_no_corner() {
    let mut region = Region::new(100, 50);
    assert_eq!(region.place(101, 1), None);
    assert_eq!(region.place(1, 51), None);
    assert_eq!(region.place(u64::MAX, 1), None);
    assert_eq!(region.place(1 << 31, 1 << 31), None);
    assert_eq!(region.count, 0);
    assert_eq!(region.place(100, 50), Some((0, 0)));
}

#[test]
fn empty_rectangle_gets_no_corner() {
    let mut region = Region::new(100, 50);
    assert_eq!(region.place(0, 10), None);
    assert_eq!(region.place(10, 0), None);
    assert_eq!(region.place(0, 0), None);
    assert_eq!(region.count, 0);
}

#[test]
fn reserved_rectangles_stay_inside_and_apart() {
    let mut region = Region::new(256, 128);
    let mut taken: Vec<(u32, u32, u32, u32)> = Vec::new();
    let mut state: u64 = 7;
    for _ in 0..400 {
        state = state.wrapping_mul(6364136223846793005).wrapping_add(1442695040888963407);
        let w = 1 + (state >> 33) % 40;
        state = state.wrapping_mul(6364136223846793005).wrapping_add(1442695040888963407);
        let h = 1 + (state >> 33) % 40;
        let before = region.count;
        match region.place(w, h) {
            Some((x, y)) => {
                let rect = (x, y, x + w as u32, y + h as u32);
                assert!(rect.2 <= 256 && rect.3 <= 128);
                for other in taken.iter() {
                    assert!(!overlap(rect, *other));
                }
                taken.push(rect);
                assert_eq!(region.count, before + 1);
            }
            None => assert_eq!(region.count, before),
        }
    }
    assert!(taken.len() > 10);
    assert_eq!(region.count, taken.len());
}

#[test]
fn same_requests_get_the_same_corners() {
    let sizes = [(30u64, 40u64), (10, 10), (50, 20), (300, 1), (64, 64), (5, 100), (20, 20)];
    let run = || {
        let mut region = Region::new(128, 128);
        sizes.iter().map(|s| region.place(s.0, s.1)).collect::<Vec<_>>()
    };
    let first = run();
    assert_eq!(first, run());
    assert_eq!(first[0], Some((0, 0)));
    assert_eq!(first[3], None);
}
