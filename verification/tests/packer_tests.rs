use atlas_gen::geom::Recti;
use atlas_gen::packer::RectPacker;

/// Gap of at least `pad` pixels along some axis between two tiles.
fn separated(a: &Recti, b: &Recti, pad: usize) -> bool {
    a.x + a.width + pad <= b.x
        || b.x + b.width + pad <= a.x
        || a.y + a.height + pad <= b.y
        || b.y + b.height + pad <= a.y
}

fn in_canvas(r: &Recti, w: usize, h: usize, pad: usize) -> bool {
    r.x >= pad && r.y >= pad && r.x + r.width + pad <= w && r.y + r.height + pad <= h
}

#[test]
fn zero_size_requests_always_succeed_and_cost_nothing() {
    let mut p = RectPacker::new(64, 64, 1);
    let r = p.allocate(0, 5).expect("zero width must succeed");
    assert_eq!((r.x, r.y, r.width, r.height), (0, 0, 0, 0));
    let r = p.allocate(7, 0).expect("zero height must succeed");
    assert_eq!((r.x, r.y, r.width, r.height), (0, 0, 0, 0));
    let r = p.allocate(0, 0).expect("zero size must succeed");
    assert_eq!((r.x, r.y, r.width, r.height), (0, 0, 0, 0));

    // subsequent allocations are unaffected: a fresh packer grants the same
    let mut q = RectPacker::new(64, 64, 1);
    assert_eq!(p.allocate(10, 10), q.allocate(10, 10));
    assert_eq!(p.allocate(20, 4), q.allocate(20, 4));
}

#[test]
fn granted_tiles_never_overlap_and_keep_padding() {
    let pad = 2;
    let mut p = RectPacker::new(128, 128, pad);
    let requests = [
        (10, 10),
        (30, 5),
        (5, 30),
        (12, 12),
        (40, 20),
        (3, 3),
        (25, 25),
        (8, 16),
        (16, 8),
        (11, 7),
    ];
    let mut granted: Vec<Recti> = Vec::new();
    for (w, h) in requests {
        if let Some(r) = p.allocate(w, h) {
            assert_eq!((r.width, r.height), (w, h));
            granted.push(r);
        }
    }
    assert!(granted.len() >= 8, "the canvas holds most of these");
    for i in 0..granted.len() {
        assert!(in_canvas(&granted[i], 128, 128, pad));
        for j in 0..granted.len() {
            if i != j {
                assert!(separated(&granted[i], &granted[j], pad));
            }
        }
    }
}

#[test]
fn too_large_request_returns_none() {
    let mut p = RectPacker::new(16, 16, 1);
    assert_eq!(p.allocate(32, 32), None);
    // and the packer still works afterwards
    assert!(p.allocate(4, 4).is_some());
}

#[test]
fn identical_request_sequences_get_identical_grants() {
    let mut p = RectPacker::new(100, 80, 1);
    let mut q = RectPacker::new(100, 80, 1);
    for (w, h) in [(9, 9), (20, 10), (10, 20), (0, 3), (33, 7), (7, 33), (50, 50)] {
        assert_eq!(p.allocate(w, h), q.allocate(w, h));
    }
}

#[test]
fn best_area_fit_prefers_the_tighter_region() {
    // First split the free space so two differently-sized regions exist,
    // then check the next tile lands in the tighter one.
    let mut p = RectPacker::new(64, 64, 1);
    let first = p.allocate(40, 56).expect("fits");
    assert_eq!((first.x, first.y), (1, 1));
    // Free regions now: right of the block (x = 42) and below it (y = 58).
    // A 20x4 tile fits both; the one below (64 x 6 area) leaves less room
    // than the right one (22 x 57).
    let second = p.allocate(20, 4).expect("fits");
    assert_eq!((second.x, second.y), (1, 58));
}
