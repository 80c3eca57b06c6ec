use equart::buffer::FrameBuffer;
use equart::equart::CircleField;
use equart::equart::Equart;
use equart::threads::ThreadWorkerState;
use equart::threads::Threads;
use equart::threads::run_worker;
use equart::threads::worker_tick;

fn worker(id: usize, max_id: usize, x: u32, y: u32) -> ThreadWorkerState<Equart<CircleField>> {
    ThreadWorkerState::new(Equart::with_field(CircleField, id, max_id, x, y))
}

#[test]
fn pool_creation_spans_and_buffers() {
    let (pool, ends) = Threads::new(64, 64, 4);
    assert_eq!(pool.cpus, 4);
    assert_eq!(ends.len(), 4);
    let textures = pool.get_textures();
    assert_eq!(textures.len(), 4);
    for (i, td) in textures.iter().enumerate() {
        assert_eq!(td.span_num, i);
        assert_eq!(td.span_den, 4);
        assert_eq!(td.texture.width, 64);
        assert_eq!(td.texture.height, 16);
    }
}

#[test]
fn idle_update_cycle_keeps_buffers() {
    // Non-blocking safety: requesting and collecting when no worker has
    // produced anything returns at once and leaves every cached buffer as it
    // was.
    let (mut pool, ends) = Threads::new(64, 64, 2);
    let before = pool.get_textures();
    pool.request_update();
    pool.recieve_update();
    assert_eq!(pool.cpus, 2);
    let after = pool.get_textures();
    assert_eq!(before.len(), after.len());
    for (b, a) in before.iter().zip(after.iter()) {
        assert_eq!(b.texture.data, a.texture.data);
        assert_eq!(b.texture.width, a.texture.width);
        assert_eq!(b.texture.height, a.texture.height);
    }
    drop(ends);
}

#[test]
fn minimum_resolution_clamp() {
    // resize(4, 4) on a 2-worker pool clamps to 16x16 and sizes each
    // worker's grid 16 x 8.
    let (mut pool, mut ends) = Threads::new(100, 100, 2);
    let mut state = worker(0, 2, 100, 50);
    let mut buf = FrameBuffer::new(100, 50);
    pool.resize(4, 4);
    assert_eq!(pool.x, 16);
    assert_eq!(pool.y, 16);
    let alive = worker_tick(&mut ends[0], &mut state, &mut buf);
    assert!(alive);
    assert_eq!(state.app.nx, 16);
    assert_eq!(state.app.ny, 8);
    assert_eq!(buf.width, 16);
    assert_eq!(buf.height, 8);
    let textures = pool.get_textures();
    assert_eq!(textures[0].texture.width, 16);
    assert_eq!(textures[0].texture.height, 8);
}

#[test]
fn worker_loss_shrinks_roster() {
    // Disconnecting worker 2's channels retires it on the next collection
    // pass; the other three keep going.
    let (mut pool, mut ends) = Threads::new(64, 64, 4);
    let lost = ends.remove(2);
    drop(lost);
    pool.request_update();
    pool.recieve_update();
    assert_eq!(pool.cpus, 3);
    let textures = pool.get_textures();
    assert_eq!(textures.len(), 3);
    let spans: Vec<(usize, usize)> = textures.iter().map(|t| (t.span_num, t.span_den)).collect();
    assert_eq!(spans, vec![(0, 4), (1, 4), (3, 4)]);
    let mut it = pool.textures_iter();
    let mut n = 0;
    while let Some(_) = it.next() {
        n += 1;
    }
    assert_eq!(n, 3);
}

#[test]
fn snapshot_roundtrip_carries_drawn_pixels() {
    let (mut pool, mut ends) = Threads::new(32, 32, 1);
    let mut state = worker(0, 1, 32, 32);
    let mut buf = FrameBuffer::new(32, 32);
    // First tick: no command pending; the worker refines and draws line 0.
    assert!(worker_tick(&mut ends[0], &mut state, &mut buf));
    // The corner cell's probes are far outside the circle: positive tint.
    assert_eq!(buf.get_pixel(0, 0), equart::pixel::Pixel { r: 255, g: 255, b: 200, a: 255 });
    // Snapshot request; the worker copies and sends its buffer.
    pool.request_update();
    assert!(worker_tick(&mut ends[0], &mut state, &mut buf));
    pool.recieve_update();
    let textures = pool.get_textures();
    assert_eq!(
        textures[0].texture.get_pixel(0, 0),
        equart::pixel::Pixel { r: 255, g: 255, b: 200, a: 255 },
    );
}

#[test]
fn run_worker_stops_on_disconnect() {
    let (pool, mut ends) = Threads::new(32, 32, 1);
    let mut state = worker(0, 1, 32, 32);
    let mut buf = FrameBuffer::new(32, 32);
    let mut end = ends.remove(0);
    assert!(run_worker(&mut end, &mut state, &mut buf, 5));
    drop(pool);
    assert!(!run_worker(&mut end, &mut state, &mut buf, 100));
}

#[test]
fn large_pool_single_row_slices() {
    // Creation puts no small cap on the worker count: twenty workers over
    // thirty-two rows each own one row.
    let (pool, ends) = Threads::new(32, 32, 20);
    assert_eq!(pool.cpus, 20);
    let textures = pool.get_textures();
    assert_eq!(textures.len(), 20);
    for td in textures.iter() {
        assert_eq!(td.texture.width, 32);
        assert_eq!(td.texture.height, 1);
    }
    drop(ends);
}

#[test]
fn resize_rejects_degenerate_per_worker_height() {
    // Twenty workers cannot share sixteen rows; the resize is rejected at
    // the manager boundary and the recorded dimensions stay as they were.
    let (mut pool, ends) = Threads::new(32, 32, 20);
    pool.resize(4, 4);
    assert_eq!(pool.x, 32);
    assert_eq!(pool.y, 32);
    let textures = pool.get_textures();
    assert_eq!(textures[0].texture.width, 32);
    assert_eq!(textures[0].texture.height, 1);
    drop(ends);
}

#[test]
fn resize_scales_cached_buffers() {
    let (mut pool, ends) = Threads::new(32, 32, 2);
    pool.resize(64, 48);
    assert_eq!(pool.x, 64);
    assert_eq!(pool.y, 48);
    let textures = pool.get_textures();
    for td in textures.iter() {
        assert_eq!(td.texture.width, 64);
        assert_eq!(td.texture.height, 24);
    }
    drop(ends);
}
