use view3d::thumbnails::{
    cleanup_thumbnail_cameras, compute_layer, get_thumbnail, handle_thumbnail_requests,
    process_thumbnail_queue, request, GenerateThumbnail, ImageHandle, JobStep, LoadState,
    ThumbnailCache, ThumbnailQueue, ThumbnailScene, ThumbnailState, SETTLE_FRAMES,
    THUMBNAIL_LAYER,
};

fn state_of(cache: &ThumbnailCache, path: &str) -> Option<ThumbnailState> {
    cache
        .pending
        .iter()
        .find(|(p, _)| p == path)
        .map(|(_, st)| *st)
}

fn rendering_count(cache: &ThumbnailCache) -> usize {
    cache
        .pending
        .iter()
        .filter(|(_, st)| matches!(st, ThumbnailState::Rendering))
        .count()
}

#[test]
fn request_is_idempotent() {
    let mut cache = ThumbnailCache::new();
    let mut queue = ThumbnailQueue::new();
    let path = String::from("models/a.glb");

    let first = request(&path, &mut cache, &mut queue);
    let second = request(&path, &mut cache, &mut queue);

    assert!(first.is_some());
    assert!(second.is_none());
    assert_eq!(cache.thumbnails.len(), 1);
    assert_eq!(cache.pending.len(), 1);
    assert_eq!(queue.queue.len(), 1);
    assert_eq!(state_of(&cache, "models/a.glb"), Some(ThumbnailState::Queued));
}

#[test]
fn request_allocates_distinct_handles() {
    let mut cache = ThumbnailCache::new();
    let mut queue = ThumbnailQueue::new();

    let ha = request(&String::from("a.glb"), &mut cache, &mut queue).unwrap();
    let hb = request(&String::from("b.glb"), &mut cache, &mut queue).unwrap();

    assert_ne!(ha, hb);
    assert_eq!(ha, ImageHandle(0));
    assert_eq!(hb, ImageHandle(1));
}

#[test]
fn batch_requests_deduplicate() {
    let mut cache = ThumbnailCache::new();
    let mut queue = ThumbnailQueue::new();
    let events = vec![
        GenerateThumbnail { file_path: String::from("a.glb") },
        GenerateThumbnail { file_path: String::from("a.glb") },
        GenerateThumbnail { file_path: String::from("b.glb") },
    ];

    let allocated = handle_thumbnail_requests(&events, &mut cache, &mut queue);

    assert_eq!(allocated.len(), 2);
    assert_eq!(allocated[0].0, "a.glb");
    assert_eq!(allocated[1].0, "b.glb");
    assert_eq!(queue.queue, vec![String::from("a.glb"), String::from("b.glb")]);
}

#[test]
fn admission_is_fifo_and_single() {
    let mut cache = ThumbnailCache::new();
    let mut queue = ThumbnailQueue::new();
    let mut scene = ThumbnailScene::new();
    for p in ["a.glb", "b.glb", "c.glb"] {
        request(&String::from(p), &mut cache, &mut queue);
    }

    let started = process_thumbnail_queue(&mut queue, &mut cache, &mut scene);
    assert_eq!(started.as_ref().map(|(p, _)| p.as_str()), Some("a.glb"));
    assert!(queue.busy);
    assert_eq!(rendering_count(&cache), 1);

    // While a job is in flight, no second job starts even though the
    // queue is non-empty.
    let again = process_thumbnail_queue(&mut queue, &mut cache, &mut scene);
    assert!(again.is_none());
    assert_eq!(queue.queue, vec![String::from("b.glb"), String::from("c.glb")]);
    assert_eq!(rendering_count(&cache), 1);
}

#[test]
fn jobs_run_in_request_order() {
    let mut cache = ThumbnailCache::new();
    let mut queue = ThumbnailQueue::new();
    let mut scene = ThumbnailScene::new();
    for p in ["a.glb", "b.glb", "c.glb"] {
        request(&String::from(p), &mut cache, &mut queue);
    }

    let mut order = Vec::new();
    for _ in 0..3 {
        let started = process_thumbnail_queue(&mut queue, &mut cache, &mut scene);
        order.push(started.unwrap().0);
        // Load immediately, then settle out.
        assert_eq!(
            cleanup_thumbnail_cameras(&mut queue, &mut cache, &mut scene, LoadState::Loaded),
            JobStep::Isolate
        );
        loop {
            assert_eq!(rendering_count(&cache), 1);
            let step =
                cleanup_thumbnail_cameras(&mut queue, &mut cache, &mut scene, LoadState::Loaded);
            if step == JobStep::Finalized {
                break;
            }
            assert_eq!(step, JobStep::Settling);
        }
    }
    assert_eq!(order, vec!["a.glb", "b.glb", "c.glb"]);
}

#[test]
fn job_waits_until_loaded() {
    let mut cache = ThumbnailCache::new();
    let mut queue = ThumbnailQueue::new();
    let mut scene = ThumbnailScene::new();
    request(&String::from("slow.glb"), &mut cache, &mut queue);
    process_thumbnail_queue(&mut queue, &mut cache, &mut scene);

    for load in [LoadState::NotLoaded, LoadState::Loading, LoadState::Loading] {
        let step = cleanup_thumbnail_cameras(&mut queue, &mut cache, &mut scene, load);
        assert_eq!(step, JobStep::Waiting);
        assert_eq!(state_of(&cache, "slow.glb"), Some(ThumbnailState::Rendering));
        assert!(queue.busy);
    }
}

#[test]
fn settle_delay_is_exactly_three_ticks() {
    let mut cache = ThumbnailCache::new();
    let mut queue = ThumbnailQueue::new();
    let mut scene = ThumbnailScene::new();
    request(&String::from("a.glb"), &mut cache, &mut queue);
    process_thumbnail_queue(&mut queue, &mut cache, &mut scene);

    assert_eq!(SETTLE_FRAMES, 3);
    // The tick that observes the load isolates the scene.
    assert_eq!(
        cleanup_thumbnail_cameras(&mut queue, &mut cache, &mut scene, LoadState::Loaded),
        JobStep::Isolate
    );
    // Two settle ticks later the job is still rendering…
    for _ in 0..2 {
        assert_eq!(
            cleanup_thumbnail_cameras(&mut queue, &mut cache, &mut scene, LoadState::Loaded),
            JobStep::Settling
        );
        assert_eq!(state_of(&cache, "a.glb"), Some(ThumbnailState::Rendering));
    }
    // …and the third settle tick finalizes it.
    assert_eq!(
        cleanup_thumbnail_cameras(&mut queue, &mut cache, &mut scene, LoadState::Loaded),
        JobStep::Finalized
    );
    assert_eq!(state_of(&cache, "a.glb"), Some(ThumbnailState::Ready));
}

#[test]
fn completion_releases_the_lock_and_scene() {
    let mut cache = ThumbnailCache::new();
    let mut queue = ThumbnailQueue::new();
    let mut scene = ThumbnailScene::new();
    request(&String::from("a.glb"), &mut cache, &mut queue);
    request(&String::from("b.glb"), &mut cache, &mut queue);
    process_thumbnail_queue(&mut queue, &mut cache, &mut scene);

    assert_eq!(scene.cameras.len(), 1);
    assert_eq!(scene.models.len(), 1);
    assert_eq!(scene.lights.len(), 1);
    assert_eq!(scene.cameras[0].layer as usize, THUMBNAIL_LAYER);

    cleanup_thumbnail_cameras(&mut queue, &mut cache, &mut scene, LoadState::Loaded);
    for _ in 0..3 {
        cleanup_thumbnail_cameras(&mut queue, &mut cache, &mut scene, LoadState::Loaded);
    }

    // The instant the path became Ready, the lock was released and the
    // job's spawned objects were all torn down.
    assert_eq!(state_of(&cache, "a.glb"), Some(ThumbnailState::Ready));
    assert!(!queue.busy);
    assert!(scene.cameras.is_empty());
    assert!(scene.models.is_empty());
    assert!(scene.lights.is_empty());

    // The next admission tick starts the next queued path.
    let started = process_thumbnail_queue(&mut queue, &mut cache, &mut scene);
    assert_eq!(started.as_ref().map(|(p, _)| p.as_str()), Some("b.glb"));
    assert_eq!(state_of(&cache, "b.glb"), Some(ThumbnailState::Rendering));
}

#[test]
fn failed_load_aborts_and_releases() {
    let mut cache = ThumbnailCache::new();
    let mut queue = ThumbnailQueue::new();
    let mut scene = ThumbnailScene::new();
    request(&String::from("broken.glb"), &mut cache, &mut queue);
    request(&String::from("ok.glb"), &mut cache, &mut queue);
    process_thumbnail_queue(&mut queue, &mut cache, &mut scene);

    let step = cleanup_thumbnail_cameras(&mut queue, &mut cache, &mut scene, LoadState::Failed);
    assert_eq!(step, JobStep::Aborted);
    assert_eq!(state_of(&cache, "broken.glb"), Some(ThumbnailState::Failed));
    assert!(!queue.busy);
    assert!(scene.cameras.is_empty());

    // The failure did not wedge the engine: the next path still runs.
    let started = process_thumbnail_queue(&mut queue, &mut cache, &mut scene);
    assert_eq!(started.as_ref().map(|(p, _)| p.as_str()), Some("ok.glb"));
}

#[test]
fn tick_without_job_is_idle() {
    let mut cache = ThumbnailCache::new();
    let mut queue = ThumbnailQueue::new();
    let mut scene = ThumbnailScene::new();
    let step = cleanup_thumbnail_cameras(&mut queue, &mut cache, &mut scene, LoadState::Loaded);
    assert_eq!(step, JobStep::Idle);
    let started = process_thumbnail_queue(&mut queue, &mut cache, &mut scene);
    assert!(started.is_none());
}

#[test]
fn get_thumbnail_hits_and_requests() {
    let mut cache = ThumbnailCache::new();
    let mut queue = ThumbnailQueue::new();
    let mut events: Vec<GenerateThumbnail> = Vec::new();

    // Unknown path: no handle, a generation request is recorded.
    let miss = get_thumbnail(&String::from("new.glb"), &cache, &mut events);
    assert!(miss.is_none());
    assert_eq!(events.len(), 1);
    assert_eq!(events[0].file_path, "new.glb");

    // Cached path: the stable handle comes back, in any lifecycle stage.
    let handle = request(&String::from("new.glb"), &mut cache, &mut queue).unwrap();
    let hit = get_thumbnail(&String::from("new.glb"), &cache, &mut events);
    assert_eq!(hit, Some(handle));
    assert_eq!(events.len(), 1);
}

#[test]
fn full_scenario() {
    let mut cache = ThumbnailCache::new();
    let mut queue = ThumbnailQueue::new();
    let mut scene = ThumbnailScene::new();
    let path = String::from("models/a.glb");

    // Request: the cache immediately holds a handle, lifecycle Queued.
    let handle = request(&path, &mut cache, &mut queue).unwrap();
    let mut events = Vec::new();
    assert_eq!(get_thumbnail(&path, &cache, &mut events), Some(handle));
    assert_eq!(state_of(&cache, "models/a.glb"), Some(ThumbnailState::Queued));

    // One admission tick: lifecycle Rendering, busy set, objects spawned.
    let started = process_thumbnail_queue(&mut queue, &mut cache, &mut scene).unwrap();
    assert_eq!(started.0, "models/a.glb");
    assert_eq!(started.1, handle);
    assert_eq!(state_of(&cache, "models/a.glb"), Some(ThumbnailState::Rendering));
    assert!(queue.busy);

    // The loader reaches Loaded; the isolate tick plus three settle
    // ticks finish the job.
    assert_eq!(
        cleanup_thumbnail_cameras(&mut queue, &mut cache, &mut scene, LoadState::Loaded),
        JobStep::Isolate
    );
    let mut steps = Vec::new();
    for _ in 0..3 {
        steps.push(cleanup_thumbnail_cameras(
            &mut queue,
            &mut cache,
            &mut scene,
            LoadState::Loaded,
        ));
    }
    assert_eq!(steps, vec![JobStep::Settling, JobStep::Settling, JobStep::Finalized]);

    // Ready, lock released, and no spawned object left for the path.
    assert_eq!(state_of(&cache, "models/a.glb"), Some(ThumbnailState::Ready));
    assert!(!queue.busy);
    assert!(scene.cameras.iter().all(|c| c.file_path != "models/a.glb"));
    assert!(scene.models.iter().all(|m| m.file_path != "models/a.glb"));
    assert!(scene.lights.iter().all(|l| l.file_path != "models/a.glb"));
    // The handle never moved.
    assert_eq!(get_thumbnail(&path, &cache, &mut events), Some(handle));
}

#[test]
fn compute_layer_stays_in_range_and_is_stable() {
    for path in ["a.glb", "b.glb", "some/long/path/model.gltf", ""] {
        let layer = compute_layer(path);
        assert!((1..=31).contains(&layer));
        assert_eq!(layer, compute_layer(path));
    }
}
