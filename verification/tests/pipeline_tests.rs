use jumpflood::field::{alloc_empty, Cell};
use jumpflood::passes::{composite, seed_pass};
use jumpflood::pingpong::PingPongFieldBuffers;
use jumpflood::pipeline::{classify_frame_error, FrameError, FrameOrchestrator, Recovery};
use jumpflood::sequence::{compute_iterations, pow2_exec, run_sequence};
use jumpflood::step::{dist_sq_exec, jfa_step};
use jumpflood::uniforms::UniformStore;

fn render(p: &mut FrameOrchestrator) -> Vec<Option<u64>> {
    p.render_frame().expect("the model pipeline cannot fail")
}

#[test]
fn seed_pixel_decodes_to_zero() {
    let mut p = FrameOrchestrator::new(40, 25, 17, 11);
    let img = render(&mut p);
    assert_eq!(img[11 * 40 + 17], Some(0));
}

#[test]
fn scenario_256_corner_seed() {
    // A 256x256 field with the seed at (0,0): eight passes starting at
    // radius 128 and halving down to 1.
    assert_eq!(compute_iterations(256), 8);
    assert_eq!(pow2_exec(7), 128);
    let mut p = FrameOrchestrator::new(256, 256, 0, 0);
    let img = render(&mut p);
    assert_eq!(img[0], Some(0));
    assert_eq!(img[256], Some(1)); // pixel (0, 1)
    let far = img[255 * 256 + 255].expect("far corner must be reached");
    assert_eq!(far, 255 * 255 + 255 * 255);
    let dist = (far as f64).sqrt();
    assert!((dist - 360.6).abs() < 0.1);
}

#[test]
fn two_runs_are_byte_identical() {
    let mut p1 = FrameOrchestrator::new(33, 21, 5, 9);
    let mut p2 = FrameOrchestrator::new(33, 21, 5, 9);
    let img1 = render(&mut p1);
    let img2 = render(&mut p2);
    assert_eq!(img1, img2);
    // and a second frame of the same pipeline repeats the first
    let img3 = render(&mut p1);
    assert_eq!(img1, img3);
}

#[test]
fn resize_matches_fresh_pipeline() {
    let mut resized = FrameOrchestrator::new(64, 48, 7, 3);
    render(&mut resized);
    resized.notify_resize(32, 20);
    let img_resized = render(&mut resized);

    let mut fresh = FrameOrchestrator::new(32, 20, 7, 3);
    let img_fresh = render(&mut fresh);
    assert_eq!(img_resized, img_fresh);
}

#[test]
fn pass_count_boundary_16() {
    // largest dimension exactly 2^4: four passes reach the far corner,
    // three do not.
    assert_eq!(compute_iterations(16), 4);

    let mut short = PingPongFieldBuffers::allocate(16, 16);
    short.write_destination(seed_pass(16, 16, 0, 0));
    short.swap_roles();
    run_sequence(&mut short, 3);
    let far = short.current_source().cells[15 * 16 + 15];
    assert_eq!(far, Cell::Empty);

    let mut full = PingPongFieldBuffers::allocate(16, 16);
    full.write_destination(seed_pass(16, 16, 0, 0));
    full.swap_roles();
    run_sequence(&mut full, 4);
    let far = full.current_source().cells[15 * 16 + 15];
    assert_eq!(far, Cell::Seed { x: 0, y: 0 });
}

#[test]
fn distances_monotone_along_ray() {
    let mut p = FrameOrchestrator::new(48, 48, 5, 5);
    let img = render(&mut p);
    // walk the diagonal ray away from the seed
    let mut last = 0u64;
    for t in 0..43 {
        let d = img[(5 + t) * 48 + (5 + t)].expect("field is fully propagated");
        assert!(d >= last);
        last = d;
    }
    assert_eq!(last, 2 * 42 * 42);
}

#[test]
fn seed_outside_field_is_clamped() {
    let mut p = FrameOrchestrator::new(32, 32, 1000, 1000);
    let img = render(&mut p);
    assert_eq!(img[31 * 32 + 31], Some(0));
}

#[test]
fn one_step_carries_seed_one_radius() {
    let f = seed_pass(8, 8, 3, 3);
    let stepped = jfa_step(&f, 2);
    // the pixel two to the right saw the seed at offset (-2, 0)
    assert_eq!(stepped.cells[3 * 8 + 5], Cell::Seed { x: 3, y: 3 });
    // a pixel three away saw nothing yet
    assert_eq!(stepped.cells[3 * 8 + 6], Cell::Empty);
    // the seed pixel keeps itself
    assert_eq!(stepped.cells[3 * 8 + 3], Cell::Seed { x: 3, y: 3 });
}

#[test]
fn composite_keeps_sentinel() {
    let empty = alloc_empty(6, 4);
    let img = composite(&empty);
    assert_eq!(img.len(), 24);
    for v in img {
        assert_eq!(v, None);
    }
}

#[test]
fn squared_distance_values() {
    assert_eq!(dist_sq_exec(0, 0, 0, 0), 0);
    assert_eq!(dist_sq_exec(3, 4, 0, 0), 25);
    assert_eq!(dist_sq_exec(0, 0, 3, 4), 25);
    assert_eq!(dist_sq_exec(255, 255, 0, 0), 130050);
}

#[test]
fn error_classification() {
    assert_eq!(
        classify_frame_error(FrameError::SurfaceLost),
        Recovery::ReconfigureAndRetry
    );
    assert_eq!(
        classify_frame_error(FrameError::SurfaceOutdated),
        Recovery::ReconfigureAndRetry
    );
    assert_eq!(classify_frame_error(FrameError::FrameTimeout), Recovery::SkipFrame);
    assert_eq!(classify_frame_error(FrameError::DeviceOutOfMemory), Recovery::Abort);
    assert_eq!(
        classify_frame_error(FrameError::ResourceAllocationError),
        Recovery::Abort
    );
}

#[test]
fn uniform_store_coalesces_updates() {
    let mut u = UniformStore::new(100, 80, 0, 0);
    u.set_seed(10, 20);
    u.set_seed(30, 40);
    assert!(u.seed_dirty);
    assert_eq!(u.gpu_seed_x, 0);
    u.flush();
    assert!(!u.seed_dirty);
    assert_eq!(u.gpu_seed_x, 30);
    assert_eq!(u.gpu_seed_y, 40);
    // a clean flush changes nothing
    let before = (u.gpu_seed_x, u.gpu_seed_y, u.gpu_width, u.gpu_height);
    u.flush();
    assert_eq!(before, (u.gpu_seed_x, u.gpu_seed_y, u.gpu_width, u.gpu_height));
}

#[test]
fn ping_pong_roles_alternate() {
    let mut b = PingPongFieldBuffers::allocate(4, 4);
    assert!(b.a_is_source);
    b.swap_roles();
    assert!(!b.a_is_source);
    b.swap_roles();
    assert!(b.a_is_source);
    // an even pass count restores the flag, an odd one flips it
    run_sequence(&mut b, 2);
    assert!(b.a_is_source);
    run_sequence(&mut b, 1);
    assert!(!b.a_is_source);
}

#[test]
fn resize_reallocates_and_resets() {
    let mut b = PingPongFieldBuffers::allocate(8, 8);
    b.write_destination(seed_pass(8, 8, 2, 2));
    b.resize(5, 9);
    assert_eq!(b.current_source().width, 5);
    assert_eq!(b.current_source().height, 9);
    for c in &b.current_source().cells {
        assert_eq!(*c, Cell::Empty);
    }
}

#[test]
fn single_row_field() {
    // degenerate height: propagation only runs along x
    let mut p = FrameOrchestrator::new(16, 1, 0, 0);
    let img = render(&mut p);
    for x in 0..16u64 {
        assert_eq!(img[x as usize], Some(x * x));
    }
}

#[test]
fn one_by_one_field_needs_no_pass() {
    assert_eq!(compute_iterations(1), 0);
    let mut p = FrameOrchestrator::new(1, 1, 0, 0);
    let img = render(&mut p);
    assert_eq!(img, vec![Some(0)]);
}

#[test]
fn oversized_resize_request_is_ignored() {
    let mut p = FrameOrchestrator::new(10, 10, 2, 2);
    let base = render(&mut p);
    p.notify_resize(0, 5);
    let img = render(&mut p);
    assert_eq!(base, img);
}
