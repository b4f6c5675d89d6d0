//! The thumbnail cache, the admission-controlled FIFO queue, and the
//! single-flight render-job state machine.
//!
//! All state lives in plain values owned by the caller.  Each public exec
//! function is a transition of the engine; its effect is pinned down by a
//! spec-level transition function over the views, so that global properties
//! (idempotent requests, FIFO admission, lifecycle monotonicity, settle
//! delay, release on completion) can be stated and proved once over the
//! spec transitions.

use std::collections::hash_map::DefaultHasher;
use std::hash::Hasher;
use vstd::prelude::*;
use vstd::std_specs::hash::DefaultHasherAdditionalSpecFns;
use vstd::string::StringSliceAdditionalSpecFns;

verus! {

/// The render layer reserved for thumbnail jobs.  A single fixed layer is
/// sound because admission control guarantees at most one job is in flight.
pub const THUMBNAIL_LAYER: usize = 7;

/// Width and height of thumbnail render targets, in pixels.
pub const THUMBNAIL_SIZE: u32 = 256;

/// Number of extra frames rendered after the asset is fully loaded, before
/// the render target is trusted as a finished thumbnail.
pub const SETTLE_FRAMES: u32 = 3;

/// A stable render layer in `1..=31` derived from a file path, for a
/// design where concurrent jobs would each need their own isolation layer.
/// The engine itself runs one job at a time on the fixed
/// [`THUMBNAIL_LAYER`]; this is the alternative assignment, kept for a
/// host that relaxes the single-job constraint.  Layer `0` is reserved
/// for the main world and never returned.
pub fn compute_layer(file_path: &str) -> (layer: u8)
    ensures
        1 <= layer <= 31,
        layer == (DefaultHasher::spec_finish(seq![file_path.spec_bytes()]) % 31 + 1) as u8,
{
    let mut hasher = DefaultHasher::new();
    hasher.write(file_path.as_bytes());
    let hash = hasher.finish();
    ((hash % 31) as u8) + 1
}

/// Stage of thumbnail generation for one requested path.
#[derive(Clone, Copy, PartialEq, Eq, Structural, Debug)]
pub enum ThumbnailState {
    /// Waiting in the queue.
    Queued,
    /// Reserved for a model-spawned-but-not-yet-rendering stage.
    /// The engine never produces this state.
    Loading,
    /// A render job for this path is in flight.
    Rendering,
    /// The thumbnail contents are final and may be displayed.
    Ready,
    /// The asset loader reported a failure; the path keeps its render
    /// target but will never become `Ready`.
    Failed,
}

/// What the host's asset loader reports for an asset, observed once per tick.
#[derive(Clone, Copy, PartialEq, Eq, Structural, Debug)]
pub enum LoadState {
    NotLoaded,
    Loading,
    Loaded,
    Failed,
}

/// Identifier of a render-target image allocated for one path.  The engine
/// assigns identifiers; the host maps them to real texture handles.
#[derive(Clone, Copy, PartialEq, Eq, Structural, Debug)]
pub struct ImageHandle(pub u64);

/// A request to generate a thumbnail for a file.
#[derive(Clone, Debug)]
pub struct GenerateThumbnail {
    pub file_path: String,
}

/// Cache of render targets and generation stages, keyed by file path.
///
/// The two column vectors are index-aligned: entry `i` of `thumbnails` and
/// entry `i` of `pending` describe the same path.  Entries are appended at
/// first request and never removed, so the render-target handle of a path
/// is allocated exactly once.
pub struct ThumbnailCache {
    pub thumbnails: Vec<(String, ImageHandle)>,
    pub pending: Vec<(String, ThumbnailState)>,
}

/// The render job in flight for one path, owned by the queue for its
/// duration.
pub struct RenderJob {
    pub file_path: String,
    /// Settle countdown; meaningful once `loaded` is true.
    pub frames_remaining: u32,
    /// Isolation tag shared by the job's model, camera and light.
    pub render_layer: u8,
    /// Whether the asset loader has reported the model fully loaded.
    pub loaded: bool,
}

/// FIFO queue of paths awaiting rendering, plus the single-job admission
/// lock and the job currently holding it.
pub struct ThumbnailQueue {
    pub queue: Vec<String>,
    pub busy: bool,
    pub active: Option<RenderJob>,
}

/// Tag carried by the offscreen camera spawned for a job.
pub struct ThumbnailCamera {
    pub file_path: String,
    pub layer: u8,
}

/// Tag carried by the model instance spawned for a job.
pub struct ThumbnailModel {
    pub file_path: String,
    pub layer: u8,
}

/// Tag carried by the light spawned for a job.
pub struct ThumbnailLight {
    pub file_path: String,
    pub layer: u8,
}

/// The engine's ledger of transient objects it has asked the host to spawn.
/// Teardown is match-by-tag over this ledger, mirroring the host scene.
pub struct ThumbnailScene {
    pub cameras: Vec<ThumbnailCamera>,
    pub models: Vec<ThumbnailModel>,
    pub lights: Vec<ThumbnailLight>,
}

// ---------------------------------------------------------------------------
// Views
// ---------------------------------------------------------------------------

/// View of `ThumbnailCache`: paths as character sequences.
#[verifier::ext_equal]
pub struct CacheView {
    pub thumbnails: Seq<(Seq<char>, ImageHandle)>,
    pub pending: Seq<(Seq<char>, ThumbnailState)>,
}

/// View of `RenderJob`.
#[verifier::ext_equal]
pub struct JobView {
    pub file_path: Seq<char>,
    pub frames_remaining: u32,
    pub render_layer: u8,
    pub loaded: bool,
}

/// View of `ThumbnailQueue`.
#[verifier::ext_equal]
pub struct QueueView {
    pub queue: Seq<Seq<char>>,
    pub busy: bool,
    pub active: Option<JobView>,
}

/// View of `ThumbnailScene`: each spawned object as a (path, layer) pair.
#[verifier::ext_equal]
pub struct SceneView {
    pub cameras: Seq<(Seq<char>, u8)>,
    pub models: Seq<(Seq<char>, u8)>,
    pub lights: Seq<(Seq<char>, u8)>,
}

impl View for ThumbnailCache {
    type V = CacheView;

    open spec fn view(&self) -> CacheView {
        CacheView {
            thumbnails: self.thumbnails@.map_values(|p: (String, ImageHandle)| (p.0@, p.1)),
            pending: self.pending@.map_values(|p: (String, ThumbnailState)| (p.0@, p.1)),
        }
    }
}

impl View for RenderJob {
    type V = JobView;

    open spec fn view(&self) -> JobView {
        JobView {
            file_path: self.file_path@,
            frames_remaining: self.frames_remaining,
            render_layer: self.render_layer,
            loaded: self.loaded,
        }
    }
}

impl View for ThumbnailQueue {
    type V = QueueView;

    open spec fn view(&self) -> QueueView {
        QueueView {
            queue: self.queue@.map_values(|p: String| p@),
            busy: self.busy,
            active: match self.active {
                Some(job) => Some(job@),
                None => None,
            },
        }
    }
}

impl View for ThumbnailScene {
    type V = SceneView;

    open spec fn view(&self) -> SceneView {
        SceneView {
            cameras: self.cameras@.map_values(|c: ThumbnailCamera| (c.file_path@, c.layer)),
            models: self.models@.map_values(|m: ThumbnailModel| (m.file_path@, m.layer)),
            lights: self.lights@.map_values(|l: ThumbnailLight| (l.file_path@, l.layer)),
        }
    }
}

impl CacheView {
    /// Whether `path` has ever been requested (has a cache entry).
    pub open spec fn has_path(self, path: Seq<char>) -> bool {
        exists|i: int| 0 <= i < self.thumbnails.len() && self.thumbnails[i].0 == path
    }

    /// Index of the entry for `path`; meaningful when `has_path` and keys
    /// are distinct.
    pub open spec fn index_of(self, path: Seq<char>) -> int {
        choose|i: int| 0 <= i < self.thumbnails.len() && self.thumbnails[i].0 == path
    }

    /// The render-target handle allocated for `path`.
    pub open spec fn handle_of(self, path: Seq<char>) -> ImageHandle {
        self.thumbnails[self.index_of(path)].1
    }

    /// The lifecycle stage of `path`.
    pub open spec fn state_of(self, path: Seq<char>) -> ThumbnailState {
        self.pending[self.index_of(path)].1
    }

    /// Structural well-formedness: aligned columns, distinct paths, and
    /// handles equal to the entry's position (hence allocated exactly once).
    pub open spec fn wf(self) -> bool {
        &&& self.pending.len() == self.thumbnails.len()
        &&& forall|i: int|
            0 <= i < self.thumbnails.len() ==> (#[trigger] self.pending[i]).0
                == self.thumbnails[i].0
        &&& forall|i: int, j: int|
            0 <= i < j < self.thumbnails.len() ==> (#[trigger] self.thumbnails[i]).0 != (
            #[trigger] self.thumbnails[j]).0
        &&& forall|i: int|
            0 <= i < self.thumbnails.len() ==> (#[trigger] self.thumbnails[i]).1 == ImageHandle(
                i as u64,
            )
    }
}

/// Replace the lifecycle stage recorded for `path`, leaving every other
/// entry unchanged.
pub open spec fn set_state(
    p: Seq<(Seq<char>, ThumbnailState)>,
    path: Seq<char>,
    st: ThumbnailState,
) -> Seq<(Seq<char>, ThumbnailState)> {
    Seq::new(p.len(), |i: int| if p[i].0 == path { (p[i].0, st) } else { p[i] })
}

// ---------------------------------------------------------------------------
// The engine invariant
// ---------------------------------------------------------------------------

/// Invariant tying the cache and the queue together.
///
/// - the cache is well-formed;
/// - `busy` holds exactly while a job is active;
/// - queued paths are distinct, cached, and in stage `Queued`;
/// - every `Queued` entry is actually in the queue;
/// - the dead `Loading` stage is never stored;
/// - every `Rendering` entry belongs to the single active job;
/// - the active job's path is cached, is in stage `Rendering`, and its
///   settle countdown is in range: full until the asset loads, then
///   positive until the finalize tick clears the job.
pub open spec fn engine_inv(c: CacheView, q: QueueView) -> bool {
    &&& c.wf()
    &&& (q.busy <==> q.active is Some)
    &&& forall|i: int, j: int|
        0 <= i < j < q.queue.len() ==> (#[trigger] q.queue[i]) != (#[trigger] q.queue[j])
    &&& forall|i: int|
        0 <= i < q.queue.len() ==> c.has_path(#[trigger] q.queue[i]) && c.state_of(q.queue[i])
            == ThumbnailState::Queued
    &&& forall|i: int|
        0 <= i < c.pending.len() && (#[trigger] c.pending[i]).1 == ThumbnailState::Queued
            ==> exists|k: int| 0 <= k < q.queue.len() && q.queue[k] == c.pending[i].0
    &&& forall|i: int|
        0 <= i < c.pending.len() ==> (#[trigger] c.pending[i]).1 != ThumbnailState::Loading
    &&& forall|i: int|
        0 <= i < c.pending.len() && (#[trigger] c.pending[i]).1 == ThumbnailState::Rendering
            ==> q.active is Some && q.active->0.file_path == c.pending[i].0
    &&& match q.active {
        Some(job) => {
            &&& c.has_path(job.file_path)
            &&& c.state_of(job.file_path) == ThumbnailState::Rendering
            &&& job.frames_remaining <= SETTLE_FRAMES
            &&& !job.loaded ==> job.frames_remaining == SETTLE_FRAMES
            &&& job.loaded ==> job.frames_remaining >= 1
            &&& job.render_layer == THUMBNAIL_LAYER as u8
        },
        None => true,
    }
}

/// Invariant tying the spawn ledger to the active job: the ledger holds
/// exactly the active job's camera, model and light, and is empty when no
/// job is in flight.
pub open spec fn scene_inv(s: SceneView, active: Option<JobView>) -> bool {
    match active {
        Some(job) => {
            &&& s.cameras =~= seq![(job.file_path, job.render_layer)]
            &&& s.models =~= seq![(job.file_path, job.render_layer)]
            &&& s.lights =~= seq![(job.file_path, job.render_layer)]
        },
        None => {
            &&& s.cameras =~= Seq::<(Seq<char>, u8)>::empty()
            &&& s.models =~= Seq::<(Seq<char>, u8)>::empty()
            &&& s.lights =~= Seq::<(Seq<char>, u8)>::empty()
        },
    }
}

// ---------------------------------------------------------------------------
// Spec-level transitions
// ---------------------------------------------------------------------------

/// Spec transition for one thumbnail request: a no-op for a path already
/// cached, otherwise a fresh render target, a `Queued` entry, and a spot at
/// the back of the queue.
pub open spec fn spec_request(c: CacheView, q: QueueView, path: Seq<char>) -> (CacheView, QueueView) {
    if c.has_path(path) {
        (c, q)
    } else {
        (
            CacheView {
                thumbnails: c.thumbnails.push((path, ImageHandle(c.thumbnails.len() as u64))),
                pending: c.pending.push((path, ThumbnailState::Queued)),
            },
            QueueView { queue: q.queue.push(path), ..q },
        )
    }
}

/// Spec transition for a batch of requests, serviced front to back.
pub open spec fn spec_request_all(c: CacheView, q: QueueView, paths: Seq<Seq<char>>) -> (
    CacheView,
    QueueView,
)
    decreases paths.len(),
{
    if paths.len() == 0 {
        (c, q)
    } else {
        let (c1, q1) = spec_request(c, q, paths[0]);
        spec_request_all(c1, q1, paths.drop_first())
    }
}

/// Spec transition for one admission tick: a no-op while a job is in
/// flight or the queue is empty; otherwise the front path leaves the
/// queue, enters stage `Rendering`, and becomes the active job, and its
/// camera, model and light join the spawn ledger.
pub open spec fn spec_admit(c: CacheView, q: QueueView, s: SceneView) -> (
    CacheView,
    QueueView,
    SceneView,
    Option<JobView>,
) {
    if q.busy || q.queue.len() == 0 {
        (c, q, s, None)
    } else {
        let path = q.queue[0];
        let job = JobView {
            file_path: path,
            frames_remaining: SETTLE_FRAMES,
            render_layer: THUMBNAIL_LAYER as u8,
            loaded: false,
        };
        (
            CacheView { pending: set_state(c.pending, path, ThumbnailState::Rendering), ..c },
            QueueView { queue: q.queue.drop_first(), busy: true, active: Some(job) },
            SceneView {
                cameras: s.cameras.push((path, job.render_layer)),
                models: s.models.push((path, job.render_layer)),
                lights: s.lights.push((path, job.render_layer)),
            },
            Some(job),
        )
    }
}

// ---------------------------------------------------------------------------
// Helper lemmas
// ---------------------------------------------------------------------------

/// In a well-formed cache, any entry holding `path` is the entry `index_of`
/// picks.
pub proof fn lemma_index_of(c: CacheView, path: Seq<char>, i: int)
    requires
        c.wf(),
        0 <= i < c.thumbnails.len(),
        c.thumbnails[i].0 == path,
    ensures
        c.index_of(path) == i,
        c.has_path(path),
{
    assert(c.has_path(path));
    let j = c.index_of(path);
    assert(0 <= j < c.thumbnails.len() && c.thumbnails[j].0 == path);
    if i < j {
        assert(c.thumbnails[i].0 != c.thumbnails[j].0);
    } else if j < i {
        assert(c.thumbnails[j].0 != c.thumbnails[i].0);
    }
}

// ---------------------------------------------------------------------------
// Constructors
// ---------------------------------------------------------------------------

impl ThumbnailCache {
    /// A fresh, empty cache.
    pub fn new() -> (r: ThumbnailCache)
        ensures
            r@.thumbnails == Seq::<(Seq<char>, ImageHandle)>::empty(),
            r@.pending == Seq::<(Seq<char>, ThumbnailState)>::empty(),
    {
        let r = ThumbnailCache { thumbnails: Vec::new(), pending: Vec::new() };
        proof {
            assert(r@.thumbnails =~~= Seq::<(Seq<char>, ImageHandle)>::empty());
            assert(r@.pending =~~= Seq::<(Seq<char>, ThumbnailState)>::empty());
        }
        r
    }
}

impl Default for ThumbnailCache {
    fn default() -> (r: ThumbnailCache)
        ensures
            r@.thumbnails == Seq::<(Seq<char>, ImageHandle)>::empty(),
            r@.pending == Seq::<(Seq<char>, ThumbnailState)>::empty(),
    {
        ThumbnailCache::new()
    }
}

impl ThumbnailQueue {
    /// A fresh queue: nothing pending, no job in flight.
    pub fn new() -> (r: ThumbnailQueue)
        ensures
            r@.queue == Seq::<Seq<char>>::empty(),
            r@.busy == false,
            r@.active is None,
    {
        let r = ThumbnailQueue { queue: Vec::new(), busy: false, active: None };
        proof {
            assert(r@.queue =~~= Seq::<Seq<char>>::empty());
        }
        r
    }
}

impl Default for ThumbnailQueue {
    fn default() -> (r: ThumbnailQueue)
        ensures
            r@.queue == Seq::<Seq<char>>::empty(),
            r@.busy == false,
            r@.active is None,
    {
        ThumbnailQueue::new()
    }
}

impl ThumbnailScene {
    /// An empty spawn ledger.
    pub fn new() -> (r: ThumbnailScene)
        ensures
            r@.cameras == Seq::<(Seq<char>, u8)>::empty(),
            r@.models == Seq::<(Seq<char>, u8)>::empty(),
            r@.lights == Seq::<(Seq<char>, u8)>::empty(),
    {
        let r = ThumbnailScene { cameras: Vec::new(), models: Vec::new(), lights: Vec::new() };
        proof {
            assert(r@.cameras =~~= Seq::<(Seq<char>, u8)>::empty());
            assert(r@.models =~~= Seq::<(Seq<char>, u8)>::empty());
            assert(r@.lights =~~= Seq::<(Seq<char>, u8)>::empty());
        }
        r
    }
}

impl Default for ThumbnailScene {
    fn default() -> (r: ThumbnailScene)
        ensures
            r@.cameras == Seq::<(Seq<char>, u8)>::empty(),
            r@.models == Seq::<(Seq<char>, u8)>::empty(),
            r@.lights == Seq::<(Seq<char>, u8)>::empty(),
    {
        ThumbnailScene::new()
    }
}

/// A fresh engine — empty cache, empty queue, no job, empty ledger —
/// satisfies the engine and ledger invariants.
pub proof fn lemma_empty_engine_inv()
    ensures
        engine_inv(
            CacheView {
                thumbnails: Seq::<(Seq<char>, ImageHandle)>::empty(),
                pending: Seq::<(Seq<char>, ThumbnailState)>::empty(),
            },
            QueueView { queue: Seq::<Seq<char>>::empty(), busy: false, active: None },
        ),
        scene_inv(
            SceneView {
                cameras: Seq::<(Seq<char>, u8)>::empty(),
                models: Seq::<(Seq<char>, u8)>::empty(),
                lights: Seq::<(Seq<char>, u8)>::empty(),
            },
            None,
        ),
{
}

// ---------------------------------------------------------------------------
// Exec transitions
// ---------------------------------------------------------------------------

/// Position of `path` among the cache columns, by linear scan.
fn find_thumbnail(cache: &ThumbnailCache, path: &String) -> (r: Option<usize>)
    ensures
        match r {
            Some(i) => 0 <= i < cache@.thumbnails.len() && cache@.thumbnails[i as int].0 == path@,
            None => !cache@.has_path(path@),
        },
{
    let n = cache.thumbnails.len();
    let mut i: usize = 0;
    while i < n
        invariant
            0 <= i <= n,
            n == cache@.thumbnails.len(),
            forall|k: int| 0 <= k < i ==> (#[trigger] cache@.thumbnails[k]).0 != path@,
        decreases n - i,
    {
        if cache.thumbnails[i].0 == *path {
            return Some(i);
        }
        i = i + 1;
    }
    None
}

/// Service one thumbnail request (deduplicated).
///
/// If `file_path` is already cached — in any lifecycle stage — nothing
/// changes and `None` is returned.  Otherwise a render-target handle is
/// allocated for the path, the path enters stage `Queued` and joins the
/// back of the FIFO queue, and the fresh handle is returned so the host can
/// create the actual image.  Never blocks and never renders.
pub fn request(file_path: &String, cache: &mut ThumbnailCache, queue: &mut ThumbnailQueue) -> (r:
    Option<ImageHandle>)
    requires
        engine_inv(old(cache)@, old(queue)@),
    ensures
        engine_inv(final(cache)@, final(queue)@),
        (final(cache)@, final(queue)@) == spec_request(old(cache)@, old(queue)@, file_path@),
        r is Some <==> !old(cache)@.has_path(file_path@),
        r is Some ==> r->0 == final(cache)@.handle_of(file_path@),
        final(cache)@.has_path(file_path@),
        final(queue)@.active == old(queue)@.active,
{
    let ghost c0 = cache@;
    let ghost q0 = queue@;
    match find_thumbnail(cache, file_path) {
        Some(_) => {
            assert((cache@, queue@) == spec_request(c0, q0, file_path@));
            None
        },
        None => {
            let handle = ImageHandle(cache.thumbnails.len() as u64);
            cache.thumbnails.push((file_path.clone(), handle));
            cache.pending.push((file_path.clone(), ThumbnailState::Queued));
            queue.queue.push(file_path.clone());
            proof {
                let (c1, q1) = spec_request(c0, q0, file_path@);
                assert(cache@.thumbnails =~~= c1.thumbnails);
                assert(cache@.pending =~~= c1.pending);
                assert(queue@.queue =~~= q1.queue);
                assert(cache@ =~~= c1);
                assert(queue@ =~~= q1);
                lemma_index_of(cache@, file_path@, c0.thumbnails.len() as int);
                assert(engine_inv(cache@, queue@)) by {
                    lemma_request_preserves_inv(c0, q0, file_path@);
                }
            }
            Some(handle)
        },
    }
}

/// `spec_request` preserves the engine invariant.
proof fn lemma_request_preserves_inv(c: CacheView, q: QueueView, path: Seq<char>)
    requires
        engine_inv(c, q),
    ensures
        engine_inv(spec_request(c, q, path).0, spec_request(c, q, path).1),
{
    if !c.has_path(path) {
        let c1 = spec_request(c, q, path).0;
        let q1 = spec_request(c, q, path).1;
        let n = c.thumbnails.len() as int;
        assert forall|i: int| 0 <= i < q1.queue.len() implies c1.has_path(#[trigger] q1.queue[i])
            && c1.state_of(q1.queue[i]) == ThumbnailState::Queued by {
            if i < q.queue.len() {
                let pi = q.queue[i];
                let k = c.index_of(pi);
                assert(c.has_path(pi));
                assert(0 <= k < n && c.thumbnails[k].0 == pi);
                lemma_index_of(c1, pi, k);
                assert(c1.state_of(pi) == c.state_of(pi));
            } else {
                assert(q1.queue[i] == path);
                lemma_index_of(c1, path, n);
            }
        }
        assert forall|i: int|
            0 <= i < c1.pending.len() && (#[trigger] c1.pending[i]).1
                == ThumbnailState::Queued implies exists|k: int|
            0 <= k < q1.queue.len() && q1.queue[k] == c1.pending[i].0 by {
            if i < n {
                let k = choose|k: int| 0 <= k < q.queue.len() && q.queue[k] == c.pending[i].0;
                assert(q1.queue[k] == c1.pending[i].0);
            } else {
                assert(q1.queue[q.queue.len() as int] == path);
            }
        }
        match q1.active {
            Some(job) => {
                let k = c.index_of(job.file_path);
                lemma_index_of(c1, job.file_path, k);
            },
            None => {},
        }
    }
}

/// Service a batch of thumbnail requests, front to back, through
/// [`request`].  Returns the paths that were newly admitted, paired with
/// their fresh render-target handles, in admission order, so the host can
/// create the actual images.
pub fn handle_thumbnail_requests(
    events: &Vec<GenerateThumbnail>,
    cache: &mut ThumbnailCache,
    queue: &mut ThumbnailQueue,
) -> (allocated: Vec<(String, ImageHandle)>)
    requires
        engine_inv(old(cache)@, old(queue)@),
    ensures
        engine_inv(final(cache)@, final(queue)@),
        (final(cache)@, final(queue)@) == spec_request_all(
            old(cache)@,
            old(queue)@,
            events@.map_values(|e: GenerateThumbnail| e.file_path@),
        ),
        final(cache)@.thumbnails == old(cache)@.thumbnails + allocated@.map_values(
            |p: (String, ImageHandle)| (p.0@, p.1),
        ),
        final(queue)@.active == old(queue)@.active,
{
    let ghost evs = events@.map_values(|e: GenerateThumbnail| e.file_path@);
    let ghost c0 = cache@;
    let ghost q0 = queue@;
    let mut allocated: Vec<(String, ImageHandle)> = Vec::new();
    let n = events.len();
    let mut i: usize = 0;
    proof {
        assert(c0.thumbnails =~~= c0.thumbnails + allocated@.map_values(
            |p: (String, ImageHandle)| (p.0@, p.1),
        ));
        assert(evs.skip(0) =~~= evs);
    }
    while i < n
        invariant
            0 <= i <= n,
            n == events@.len(),
            evs == events@.map_values(|e: GenerateThumbnail| e.file_path@),
            engine_inv(cache@, queue@),
            spec_request_all(cache@, queue@, evs.skip(i as int)) == spec_request_all(c0, q0, evs),
            cache@.thumbnails == c0.thumbnails + allocated@.map_values(
                |p: (String, ImageHandle)| (p.0@, p.1),
            ),
            queue@.active == q0.active,
        decreases n - i,
    {
        let ghost pre = cache@.thumbnails;
        let ghost rest = evs.skip(i as int);
        proof {
            assert(rest[0] == evs[i as int]);
            assert(rest.drop_first() =~~= evs.skip(i as int + 1));
        }
        let e = &events[i];
        let r = request(&e.file_path, cache, queue);
        match r {
            Some(h) => {
                allocated.push((e.file_path.clone(), h));
                proof {
                    assert(cache@.thumbnails =~~= c0.thumbnails + allocated@.map_values(
                        |p: (String, ImageHandle)| (p.0@, p.1),
                    ));
                }
            },
            None => {},
        }
        i = i + 1;
    }
    proof {
        assert(evs.skip(n as int) =~~= Seq::<Seq<char>>::empty());
    }
    allocated
}

/// Admission tick, run once per frame.
///
/// While a job is in flight (`busy`) or the queue is empty, nothing
/// happens.  Otherwise the front path is dequeued, marked `Rendering`, and
/// handed to a fresh render job; the job's camera, model and light enter
/// the spawn ledger, and the path with its render-target handle is
/// returned so the host can spawn the actual objects (camera targeting the
/// handle's image, all three on [`THUMBNAIL_LAYER`]).
///
/// A dequeued path always has a render target: the engine invariant makes
/// the missing-cache-entry case — fatal in a host that looks the handle
/// up at spawn time — impossible, and the lookup here is proven to
/// succeed.
pub fn process_thumbnail_queue(
    queue: &mut ThumbnailQueue,
    cache: &mut ThumbnailCache,
    scene: &mut ThumbnailScene,
) -> (started: Option<(String, ImageHandle)>)
    requires
        engine_inv(old(cache)@, old(queue)@),
        scene_inv(old(scene)@, old(queue)@.active),
    ensures
        engine_inv(final(cache)@, final(queue)@),
        scene_inv(final(scene)@, final(queue)@.active),
        ({
            let (c1, q1, s1, j1) = spec_admit(old(cache)@, old(queue)@, old(scene)@);
            &&& final(cache)@ == c1
            &&& final(queue)@ == q1
            &&& final(scene)@ == s1
            &&& (started is Some <==> j1 is Some)
            &&& (started is Some ==> (started->0).0@ == j1->0.file_path && (started->0).1 == old(
                cache,
            )@.handle_of(j1->0.file_path))
        }),
{
    if queue.busy {
        return None;
    }
    if queue.queue.len() == 0 {
        return None;
    }
    let ghost c0 = cache@;
    let ghost q0 = queue@;
    let ghost s0 = scene@;
    let path = queue.queue.remove(0);
    proof {
        assert(c0.has_path(path@));
    }
    let i = match find_thumbnail(cache, &path) {
        Some(i) => i,
        None => {
            proof {
                assert(false);
            }
            0
        },
    };
    proof {
        lemma_index_of(c0, path@, i as int);
    }
    let handle = cache.thumbnails[i].1;
    cache.pending[i] = (path.clone(), ThumbnailState::Rendering);
    let layer = THUMBNAIL_LAYER as u8;
    scene.cameras.push(ThumbnailCamera { file_path: path.clone(), layer });
    scene.models.push(ThumbnailModel { file_path: path.clone(), layer });
    scene.lights.push(ThumbnailLight { file_path: path.clone(), layer });
    queue.busy = true;
    queue.active = Some(
        RenderJob {
            file_path: path.clone(),
            frames_remaining: SETTLE_FRAMES,
            render_layer: layer,
            loaded: false,
        },
    );
    proof {
        let (c1, q1, s1, j1) = spec_admit(c0, q0, s0);
        assert(cache@.pending =~~= c1.pending) by {
            assert forall|k: int| 0 <= k < c0.pending.len() implies cache@.pending[k] == set_state(
                c0.pending,
                path@,
                ThumbnailState::Rendering,
            )[k] by {
                assert(c0.pending[k].0 == c0.thumbnails[k].0);
                if k != i as int {
                    assert(c0.thumbnails[k].0 != c0.thumbnails[i as int].0);
                }
            }
        }
        assert(cache@.thumbnails =~~= c1.thumbnails);
        assert(cache@ =~~= c1);
        assert(queue@.queue =~~= q1.queue);
        assert(queue@ =~~= q1);
        assert(scene@.cameras =~~= s1.cameras);
        assert(scene@.models =~~= s1.models);
        assert(scene@.lights =~~= s1.lights);
        assert(scene@ =~~= s1);
        lemma_admit_preserves_inv(c0, q0, s0);
    }
    Some((path, handle))
}

/// `spec_admit` preserves the engine and ledger invariants.
proof fn lemma_admit_preserves_inv(c: CacheView, q: QueueView, s: SceneView)
    requires
        engine_inv(c, q),
    ensures
        engine_inv(spec_admit(c, q, s).0, spec_admit(c, q, s).1),
        scene_inv(s, q.active) ==> scene_inv(spec_admit(c, q, s).2, spec_admit(c, q, s).1.active),
{
    if !q.busy && q.queue.len() > 0 {
        let path = q.queue[0];
        let (c1, q1, s1, j1) = spec_admit(c, q, s);
        assert(c.has_path(path));
        let pidx = c.index_of(path);
        assert(c1.wf());
        assert forall|p: Seq<char>| c.has_path(p) implies c1.index_of(p) == c.index_of(p)
            && c1.has_path(p) by {
            lemma_index_of(c1, p, c.index_of(p));
        }
        assert forall|i: int| 0 <= i < q1.queue.len() implies c1.has_path(#[trigger] q1.queue[i])
            && c1.state_of(q1.queue[i]) == ThumbnailState::Queued by {
            let pi = q.queue[i + 1];
            assert(q1.queue[i] == pi);
            assert(c.has_path(pi) && c.state_of(pi) == ThumbnailState::Queued);
            assert(pi != path);
            let k = c.index_of(pi);
            assert(c.pending[k].0 == c.thumbnails[k].0);
            assert(c1.state_of(pi) == c.state_of(pi));
        }
        assert forall|i: int|
            0 <= i < c1.pending.len() && (#[trigger] c1.pending[i]).1
                == ThumbnailState::Queued implies exists|k: int|
            0 <= k < q1.queue.len() && q1.queue[k] == c1.pending[i].0 by {
            assert(c.pending[i].0 != path);
            assert(c.pending[i].1 == ThumbnailState::Queued);
            let k = choose|k: int| 0 <= k < q.queue.len() && q.queue[k] == c.pending[i].0;
            assert(k != 0);
            assert(q1.queue[k - 1] == c.pending[i].0);
        }
        assert forall|i: int|
            0 <= i < c1.pending.len() && (#[trigger] c1.pending[i]).1
                == ThumbnailState::Rendering implies q1.active is Some
            && q1.active->0.file_path == c1.pending[i].0 by {
            if c.pending[i].0 != path {
                assert(c.pending[i].1 == ThumbnailState::Rendering);
            }
        }
        assert(c.pending[pidx].0 == c.thumbnails[pidx].0);
        assert(c1.state_of(path) == ThumbnailState::Rendering);
        assert(engine_inv(c1, q1));
    }
}

/// What one polling tick of the render job did, for the host to act on.
#[derive(Clone, Copy, PartialEq, Eq, Structural, Debug)]
pub enum JobStep {
    /// No job is in flight.
    Idle,
    /// The asset is not fully loaded yet; the job made no progress.
    Waiting,
    /// The asset finished loading this tick: the host must now propagate
    /// the job's render layer over the loaded scene subtree and deactivate
    /// any embedded cameras; the settle countdown starts next tick.
    Isolate,
    /// The settle countdown ticked down; the job keeps rendering.
    Settling,
    /// The countdown reached zero: the thumbnail is `Ready`, the job's
    /// spawned objects must be despawned (matched by path tag), and the
    /// admission lock was released.
    Finalized,
    /// The asset loader reported failure: the path was marked `Failed`,
    /// the job's objects must be despawned, and the lock was released.
    Aborted,
}

/// Drop every ledger entry tagged with `path`, keeping the others in
/// order.
pub open spec fn drop_tagged(s: Seq<(Seq<char>, u8)>, path: Seq<char>) -> Seq<(Seq<char>, u8)>
    decreases s.len(),
{
    if s.len() == 0 {
        Seq::empty()
    } else {
        let rest = drop_tagged(s.drop_last(), path);
        if s.last().0 == path {
            rest
        } else {
            rest.push(s.last())
        }
    }
}

/// Drop every spawned object tagged with `path` from the ledger.
pub open spec fn remove_path(s: SceneView, path: Seq<char>) -> SceneView {
    SceneView {
        cameras: drop_tagged(s.cameras, path),
        models: drop_tagged(s.models, path),
        lights: drop_tagged(s.lights, path),
    }
}

/// Spec transition for one polling tick of the render job.
///
/// `load` is what the host's asset loader reports for the active job's
/// model this tick (ignored when no job is active).  While the asset is
/// not loaded the job suspends; the tick it loads, the job switches to
/// settling; each later tick decrements the countdown, and the tick the
/// countdown reaches zero the path becomes `Ready`, the job's objects
/// leave the ledger, and the admission lock is released.  A reported load
/// failure releases the job the same way but marks the path `Failed`.
pub open spec fn spec_job_tick(c: CacheView, q: QueueView, s: SceneView, load: LoadState) -> (
    CacheView,
    QueueView,
    SceneView,
    JobStep,
) {
    match q.active {
        None => (c, q, s, JobStep::Idle),
        Some(job) => {
            if !job.loaded {
                if load == LoadState::Loaded {
                    (
                        c,
                        QueueView { active: Some(JobView { loaded: true, ..job }), ..q },
                        s,
                        JobStep::Isolate,
                    )
                } else if load == LoadState::Failed {
                    (
                        CacheView {
                            pending: set_state(c.pending, job.file_path, ThumbnailState::Failed),
                            ..c
                        },
                        QueueView { busy: false, active: None, ..q },
                        remove_path(s, job.file_path),
                        JobStep::Aborted,
                    )
                } else {
                    (c, q, s, JobStep::Waiting)
                }
            } else {
                if job.frames_remaining > 1 {
                    (
                        c,
                        QueueView {
                            active: Some(
                                JobView {
                                    frames_remaining: (job.frames_remaining - 1) as u32,
                                    ..job
                                },
                            ),
                            ..q
                        },
                        s,
                        JobStep::Settling,
                    )
                } else {
                    (
                        CacheView {
                            pending: set_state(c.pending, job.file_path, ThumbnailState::Ready),
                            ..c
                        },
                        QueueView { busy: false, active: None, ..q },
                        remove_path(s, job.file_path),
                        JobStep::Finalized,
                    )
                }
            }
        },
    }
}

/// Remove every camera tagged with `path` from the ledger, keeping order.
fn despawn_cameras_for(v: &mut Vec<ThumbnailCamera>, path: &String)
    ensures
        final(v)@.map_values(|c: ThumbnailCamera| (c.file_path@, c.layer)) == drop_tagged(
            old(v)@.map_values(|c: ThumbnailCamera| (c.file_path@, c.layer)),
            path@,
        ),
{
    let ghost orig = v@.map_values(|c: ThumbnailCamera| (c.file_path@, c.layer));
    let mut i: usize = 0;
    let ghost mut j: int = 0;
    proof {
        assert(orig.take(0) =~~= Seq::<(Seq<char>, u8)>::empty());
        assert(v@.map_values(|c: ThumbnailCamera| (c.file_path@, c.layer)) =~~= drop_tagged(
            orig.take(0),
            path@,
        ) + orig.skip(0));
    }
    while i < v.len()
        invariant
            orig == old(v)@.map_values(|c: ThumbnailCamera| (c.file_path@, c.layer)),
            0 <= j <= orig.len(),
            i as int == drop_tagged(orig.take(j), path@).len(),
            i <= v@.len(),
            v@.map_values(|c: ThumbnailCamera| (c.file_path@, c.layer)) == drop_tagged(
                orig.take(j),
                path@,
            ) + orig.skip(j),
        decreases v@.len() - i,
    {
        proof {
            assert(v@.map_values(|c: ThumbnailCamera| (c.file_path@, c.layer)).len() == v@.len());
            assert(orig.skip(j).len() > 0);
            assert(orig.take(j + 1).drop_last() =~~= orig.take(j));
            assert(orig.take(j + 1).last() == orig[j]);
            assert(v@.map_values(|c: ThumbnailCamera| (c.file_path@, c.layer))[i as int]
                == orig.skip(j)[0]);
            assert(orig.skip(j)[0] == orig[j]);
            assert(v@[i as int].file_path@ == orig[j].0);
        }
        let ghost prev = v@.map_values(|c: ThumbnailCamera| (c.file_path@, c.layer));
        if v[i].file_path == *path {
            let _removed = v.remove(i);
            proof {
                j = j + 1;
                assert(drop_tagged(orig.take(j), path@) == drop_tagged(orig.take(j - 1), path@));
                assert(v@.map_values(|c: ThumbnailCamera| (c.file_path@, c.layer)) =~~= prev.remove(i as int));
                assert(prev.remove(i as int) =~~= drop_tagged(orig.take(j), path@) + orig.skip(
                    j,
                ));
            }
        } else {
            proof {
                j = j + 1;
                assert(drop_tagged(orig.take(j), path@) == drop_tagged(
                    orig.take(j - 1),
                    path@,
                ).push(orig[j - 1]));
                assert(prev =~~= drop_tagged(orig.take(j), path@) + orig.skip(j));
            }
            i = i + 1;
        }
    }
    proof {
        assert(orig.skip(j).len() == 0);
        assert(j == orig.len());
        assert(orig.take(j) =~~= orig);
        assert(v@.map_values(|c: ThumbnailCamera| (c.file_path@, c.layer)) =~~= drop_tagged(
            orig,
            path@,
        ));
    }
}

/// Remove every model tagged with `path` from the ledger, keeping order.
fn despawn_models_for(v: &mut Vec<ThumbnailModel>, path: &String)
    ensures
        final(v)@.map_values(|m: ThumbnailModel| (m.file_path@, m.layer)) == drop_tagged(
            old(v)@.map_values(|m: ThumbnailModel| (m.file_path@, m.layer)),
            path@,
        ),
{
    let ghost orig = v@.map_values(|m: ThumbnailModel| (m.file_path@, m.layer));
    let mut i: usize = 0;
    let ghost mut j: int = 0;
    proof {
        assert(orig.take(0) =~~= Seq::<(Seq<char>, u8)>::empty());
        assert(v@.map_values(|m: ThumbnailModel| (m.file_path@, m.layer)) =~~= drop_tagged(
            orig.take(0),
            path@,
        ) + orig.skip(0));
    }
    while i < v.len()
        invariant
            orig == old(v)@.map_values(|m: ThumbnailModel| (m.file_path@, m.layer)),
            0 <= j <= orig.len(),
            i as int == drop_tagged(orig.take(j), path@).len(),
            i <= v@.len(),
            v@.map_values(|m: ThumbnailModel| (m.file_path@, m.layer)) == drop_tagged(
                orig.take(j),
                path@,
            ) + orig.skip(j),
        decreases v@.len() - i,
    {
        proof {
            assert(v@.map_values(|m: ThumbnailModel| (m.file_path@, m.layer)).len() == v@.len());
            assert(orig.skip(j).len() > 0);
            assert(orig.take(j + 1).drop_last() =~~= orig.take(j));
            assert(orig.take(j + 1).last() == orig[j]);
            assert(v@.map_values(|m: ThumbnailModel| (m.file_path@, m.layer))[i as int]
                == orig.skip(j)[0]);
            assert(orig.skip(j)[0] == orig[j]);
            assert(v@[i as int].file_path@ == orig[j].0);
        }
        let ghost prev = v@.map_values(|m: ThumbnailModel| (m.file_path@, m.layer));
        if v[i].file_path == *path {
            let _removed = v.remove(i);
            proof {
                j = j + 1;
                assert(drop_tagged(orig.take(j), path@) == drop_tagged(orig.take(j - 1), path@));
                assert(v@.map_values(|m: ThumbnailModel| (m.file_path@, m.layer)) =~~= prev.remove(i as int));
                assert(prev.remove(i as int) =~~= drop_tagged(orig.take(j), path@) + orig.skip(
                    j,
                ));
            }
        } else {
            proof {
                j = j + 1;
                assert(drop_tagged(orig.take(j), path@) == drop_tagged(
                    orig.take(j - 1),
                    path@,
                ).push(orig[j - 1]));
                assert(prev =~~= drop_tagged(orig.take(j), path@) + orig.skip(j));
            }
            i = i + 1;
        }
    }
    proof {
        assert(orig.skip(j).len() == 0);
        assert(j == orig.len());
        assert(orig.take(j) =~~= orig);
        assert(v@.map_values(|m: ThumbnailModel| (m.file_path@, m.layer)) =~~= drop_tagged(
            orig,
            path@,
        ));
    }
}

/// Remove every light tagged with `path` from the ledger, keeping order.
fn despawn_lights_for(v: &mut Vec<ThumbnailLight>, path: &String)
    ensures
        final(v)@.map_values(|l: ThumbnailLight| (l.file_path@, l.layer)) == drop_tagged(
            old(v)@.map_values(|l: ThumbnailLight| (l.file_path@, l.layer)),
            path@,
        ),
{
    let ghost orig = v@.map_values(|l: ThumbnailLight| (l.file_path@, l.layer));
    let mut i: usize = 0;
    let ghost mut j: int = 0;
    proof {
        assert(orig.take(0) =~~= Seq::<(Seq<char>, u8)>::empty());
        assert(v@.map_values(|l: ThumbnailLight| (l.file_path@, l.layer)) =~~= drop_tagged(
            orig.take(0),
            path@,
        ) + orig.skip(0));
    }
    while i < v.len()
        invariant
            orig == old(v)@.map_values(|l: ThumbnailLight| (l.file_path@, l.layer)),
            0 <= j <= orig.len(),
            i as int == drop_tagged(orig.take(j), path@).len(),
            i <= v@.len(),
            v@.map_values(|l: ThumbnailLight| (l.file_path@, l.layer)) == drop_tagged(
                orig.take(j),
                path@,
            ) + orig.skip(j),
        decreases v@.len() - i,
    {
        proof {
            assert(v@.map_values(|l: ThumbnailLight| (l.file_path@, l.layer)).len() == v@.len());
            assert(orig.skip(j).len() > 0);
            assert(orig.take(j + 1).drop_last() =~~= orig.take(j));
            assert(orig.take(j + 1).last() == orig[j]);
            assert(v@.map_values(|l: ThumbnailLight| (l.file_path@, l.layer))[i as int]
                == orig.skip(j)[0]);
            assert(orig.skip(j)[0] == orig[j]);
            assert(v@[i as int].file_path@ == orig[j].0);
        }
        let ghost prev = v@.map_values(|l: ThumbnailLight| (l.file_path@, l.layer));
        if v[i].file_path == *path {
            let _removed = v.remove(i);
            proof {
                j = j + 1;
                assert(drop_tagged(orig.take(j), path@) == drop_tagged(orig.take(j - 1), path@));
                assert(v@.map_values(|l: ThumbnailLight| (l.file_path@, l.layer)) =~~= prev.remove(i as int));
                assert(prev.remove(i as int) =~~= drop_tagged(orig.take(j), path@) + orig.skip(
                    j,
                ));
            }
        } else {
            proof {
                j = j + 1;
                assert(drop_tagged(orig.take(j), path@) == drop_tagged(
                    orig.take(j - 1),
                    path@,
                ).push(orig[j - 1]));
                assert(prev =~~= drop_tagged(orig.take(j), path@) + orig.skip(j));
            }
            i = i + 1;
        }
    }
    proof {
        assert(orig.skip(j).len() == 0);
        assert(j == orig.len());
        assert(orig.take(j) =~~= orig);
        assert(v@.map_values(|l: ThumbnailLight| (l.file_path@, l.layer)) =~~= drop_tagged(
            orig,
            path@,
        ));
    }
}

/// Releasing the active job — whether into `Ready` or `Failed` — keeps the
/// engine and ledger invariants.
proof fn lemma_finalize_preserves_inv(c: CacheView, q: QueueView, s: SceneView, st: ThumbnailState)
    requires
        engine_inv(c, q),
        scene_inv(s, q.active),
        q.active is Some,
        st == ThumbnailState::Ready || st == ThumbnailState::Failed,
    ensures
        engine_inv(
            CacheView { pending: set_state(c.pending, q.active->0.file_path, st), ..c },
            QueueView { busy: false, active: None, ..q },
        ),
        scene_inv(remove_path(s, q.active->0.file_path), None),
{
    let job = q.active->0;
    let path = job.file_path;
    let c1 = CacheView { pending: set_state(c.pending, path, st), ..c };
    let q1 = QueueView { busy: false, active: None, ..q };
    assert forall|k: int| 0 <= k < c1.pending.len() implies (#[trigger] c1.pending[k]).0
        == c.pending[k].0 by {}
    assert(c1.wf());
    assert forall|p: Seq<char>| c.has_path(p) implies c1.index_of(p) == c.index_of(p)
        && c1.has_path(p) by {
        lemma_index_of(c1, p, c.index_of(p));
    }
    let pidx = c.index_of(path);
    assert(c.pending[pidx].0 == c.thumbnails[pidx].0);
    assert forall|i: int| 0 <= i < q1.queue.len() implies c1.has_path(#[trigger] q1.queue[i])
        && c1.state_of(q1.queue[i]) == ThumbnailState::Queued by {
        let pi = q.queue[i];
        assert(c.has_path(pi) && c.state_of(pi) == ThumbnailState::Queued);
        if pi == path {
            assert(c.state_of(path) == ThumbnailState::Rendering);
            assert(false);
        }
        let k = c.index_of(pi);
        assert(c.pending[k].0 == c.thumbnails[k].0);
    }
    assert forall|i: int|
        0 <= i < c1.pending.len() && (#[trigger] c1.pending[i]).1
            == ThumbnailState::Queued implies exists|k: int|
        0 <= k < q1.queue.len() && q1.queue[k] == c1.pending[i].0 by {
        assert(c.pending[i].0 != path);
        assert(c.pending[i].1 == ThumbnailState::Queued);
        let k = choose|k: int| 0 <= k < q.queue.len() && q.queue[k] == c.pending[i].0;
        assert(q1.queue[k] == c1.pending[i].0);
    }
    assert forall|i: int|
        0 <= i < c1.pending.len() implies (#[trigger] c1.pending[i]).1
        != ThumbnailState::Rendering by {
        if c.pending[i].0 != path && c.pending[i].1 == ThumbnailState::Rendering {
            assert(q.active->0.file_path == c.pending[i].0);
        }
    }
    assert(engine_inv(c1, q1));
    let single: Seq<(Seq<char>, u8)> = seq![(path, job.render_layer)];
    assert(single.drop_last() =~~= Seq::<(Seq<char>, u8)>::empty());
    assert(drop_tagged(single.drop_last(), path) =~~= Seq::<(Seq<char>, u8)>::empty());
    assert(drop_tagged(single, path) =~~= Seq::<(Seq<char>, u8)>::empty());
    assert(s.cameras == single);
    assert(s.models == single);
    assert(s.lights == single);
    assert(scene_inv(remove_path(s, path), None));
}

/// One polling tick of the active render job, run once per frame.
///
/// `load` is the loader's report for the active job's scene asset this
/// tick; it is ignored when no job is in flight.  The returned [`JobStep`]
/// tells the host what happened and what it must mirror: nothing, isolate
/// the freshly loaded subtree, keep rendering, or despawn the job's tagged
/// objects.  The exact transition is [`spec_job_tick`].
pub fn cleanup_thumbnail_cameras(
    queue: &mut ThumbnailQueue,
    cache: &mut ThumbnailCache,
    scene: &mut ThumbnailScene,
    load: LoadState,
) -> (step: JobStep)
    requires
        engine_inv(old(cache)@, old(queue)@),
        scene_inv(old(scene)@, old(queue)@.active),
    ensures
        engine_inv(final(cache)@, final(queue)@),
        scene_inv(final(scene)@, final(queue)@.active),
        ({
            let (c1, q1, s1, st) = spec_job_tick(old(cache)@, old(queue)@, old(scene)@, load);
            &&& final(cache)@ == c1
            &&& final(queue)@ == q1
            &&& final(scene)@ == s1
            &&& step == st
        }),
{
    let ghost c0 = cache@;
    let ghost q0 = queue@;
    let ghost s0 = scene@;
    let (has_job, j_loaded, j_frames) = match &queue.active {
        Some(job) => (true, job.loaded, job.frames_remaining),
        None => (false, false, 0u32),
    };
    if !has_job {
        return JobStep::Idle;
    }
    if !j_loaded {
        if load == LoadState::Loaded {
            match &mut queue.active {
                Some(job) => {
                    job.loaded = true;
                },
                None => {},
            }
            proof {
                assert(queue@ =~~= spec_job_tick(c0, q0, s0, load).1);
                assert(engine_inv(cache@, queue@));
                assert(scene_inv(scene@, queue@.active));
            }
            return JobStep::Isolate;
        } else if load != LoadState::Failed {
            return JobStep::Waiting;
        }
        // load failure: release the job and mark the path `Failed`
    } else if j_frames > 1 {
        match &mut queue.active {
            Some(job) => {
                job.frames_remaining = job.frames_remaining - 1;
            },
            None => {},
        }
        proof {
            assert(queue@ =~~= spec_job_tick(c0, q0, s0, load).1);
            assert(engine_inv(cache@, queue@));
            assert(scene_inv(scene@, queue@.active));
        }
        return JobStep::Settling;
    }
    // the countdown reached zero, or the load failed: finalize the job
    let failed = !j_loaded;
    let job = match queue.active.take() {
        Some(j) => j,
        None => {
            proof {
                assert(false);
            }
            RenderJob { file_path: String::new(), frames_remaining: 0, render_layer: 0, loaded: false }
        },
    };
    queue.busy = false;
    let i = match find_thumbnail(cache, &job.file_path) {
        Some(i) => i,
        None => {
            proof {
                assert(false);
            }
            0
        },
    };
    proof {
        lemma_index_of(c0, job.file_path@, i as int);
    }
    let st = if failed {
        ThumbnailState::Failed
    } else {
        ThumbnailState::Ready
    };
    cache.pending[i] = (job.file_path.clone(), st);
    despawn_cameras_for(&mut scene.cameras, &job.file_path);
    despawn_models_for(&mut scene.models, &job.file_path);
    despawn_lights_for(&mut scene.lights, &job.file_path);
    proof {
        let (c1, q1, s1, _st1) = spec_job_tick(c0, q0, s0, load);
        assert(cache@.pending =~~= c1.pending) by {
            assert forall|k: int| 0 <= k < c0.pending.len() implies cache@.pending[k] == set_state(
                c0.pending,
                job.file_path@,
                st,
            )[k] by {
                assert(c0.pending[k].0 == c0.thumbnails[k].0);
                if k != i as int {
                    assert(c0.thumbnails[k].0 != c0.thumbnails[i as int].0);
                }
            }
        }
        assert(cache@.thumbnails =~~= c1.thumbnails);
        assert(cache@ =~~= c1);
        assert(queue@ =~~= q1);
        assert(scene@ =~~= s1);
        lemma_finalize_preserves_inv(c0, q0, s0, st);
    }
    if failed {
        JobStep::Aborted
    } else {
        JobStep::Finalized
    }
}

/// Look up the cached render target for a path, or ask for one.
///
/// Returns the handle if the path has a cache entry, in any lifecycle
/// stage; callers must check that the stage is `Ready` before treating the
/// image contents as meaningful.  If the path is unknown, a
/// `GenerateThumbnail` request is appended to `events` and `None` is
/// returned.
pub fn get_thumbnail(file_path: &String, cache: &ThumbnailCache, events: &mut Vec<
    GenerateThumbnail,
>) -> (r: Option<ImageHandle>)
    requires
        cache@.wf(),
    ensures
        r is Some <==> cache@.has_path(file_path@),
        r is Some ==> r->0 == cache@.handle_of(file_path@),
        r is Some ==> final(events)@ == old(events)@,
        r is None ==> final(events)@.len() == old(events)@.len() + 1 && final(events)@.last().file_path@
            == file_path@ && forall|i: int|
            0 <= i < old(events)@.len() ==> final(events)@[i] == old(events)@[i],
{
    match find_thumbnail(cache, file_path) {
        Some(i) => {
            let handle = cache.thumbnails[i].1;
            proof {
                lemma_index_of(cache@, file_path@, i as int);
            }
            Some(handle)
        },
        None => {
            events.push(GenerateThumbnail { file_path: file_path.clone() });
            None
        },
    }
}

// ---------------------------------------------------------------------------
// Engine laws
// ---------------------------------------------------------------------------

/// Law: requesting a path twice in a row is the same as requesting it
/// once.  After the first request the path is cached, so the second
/// request changes nothing; and the path then has exactly one cache entry
/// (one render-target allocation) and at most one spot in the queue.
pub proof fn lemma_request_idempotent(c: CacheView, q: QueueView, path: Seq<char>)
    requires
        engine_inv(c, q),
    ensures
        ({
            let (c1, q1) = spec_request(c, q, path);
            &&& spec_request(c1, q1, path) == (c1, q1)
            &&& c1.has_path(path)
            &&& forall|i: int, j: int|
                0 <= i < j < c1.thumbnails.len() ==> !((#[trigger] c1.thumbnails[i]).0 == path && (
                #[trigger] c1.thumbnails[j]).0 == path)
            &&& forall|i: int, j: int|
                0 <= i < j < q1.queue.len() ==> !((#[trigger] q1.queue[i]) == path && (
                #[trigger] q1.queue[j]) == path)
        }),
{
    lemma_request_preserves_inv(c, q, path);
    let (c1, q1) = spec_request(c, q, path);
    if !c.has_path(path) {
        assert(c1.thumbnails[c.thumbnails.len() as int].0 == path);
    }
    assert(c1.has_path(path));
}

/// Law: at most one path is in stage `Rendering` at any time — two
/// rendering paths are the same path (they both belong to the single
/// active job).
pub proof fn lemma_single_rendering(c: CacheView, q: QueueView, p1: Seq<char>, p2: Seq<char>)
    requires
        engine_inv(c, q),
        c.has_path(p1),
        c.has_path(p2),
        c.state_of(p1) == ThumbnailState::Rendering,
        c.state_of(p2) == ThumbnailState::Rendering,
    ensures
        p1 == p2,
{
    let i1 = c.index_of(p1);
    let i2 = c.index_of(p2);
    assert(c.pending[i1].0 == c.thumbnails[i1].0);
    assert(c.pending[i2].0 == c.thumbnails[i2].0);
    assert(q.active->0.file_path == p1);
    assert(q.active->0.file_path == p2);
}

/// Law: admission is first-in-first-out — the job that starts is for the
/// path that has waited longest (the queue's front), the rest of the
/// queue keeps its order, and the front path alone moves to `Rendering`.
pub proof fn lemma_fifo_admission(c: CacheView, q: QueueView, s: SceneView)
    requires
        engine_inv(c, q),
        scene_inv(s, q.active),
        !q.busy,
        q.queue.len() > 0,
    ensures
        ({
            let (c1, q1, s1, j1) = spec_admit(c, q, s);
            &&& j1 is Some
            &&& j1->0.file_path == q.queue[0]
            &&& q1.queue == q.queue.drop_first()
            &&& c1.state_of(q.queue[0]) == ThumbnailState::Rendering
            &&& forall|p: Seq<char>|
                c.has_path(p) && p != q.queue[0] ==> #[trigger] c1.state_of(p) == c.state_of(p)
        }),
{
    lemma_admit_preserves_inv(c, q, s);
    let (c1, q1, s1, j1) = spec_admit(c, q, s);
    let front = q.queue[0];
    let k = c.index_of(front);
    assert(c.has_path(front));
    assert(c.pending[k].0 == c.thumbnails[k].0);
    assert(c1.state_of(front) == ThumbnailState::Rendering);
    assert forall|p: Seq<char>| c.has_path(p) && p != front implies #[trigger] c1.state_of(p)
        == c.state_of(p) by {
        let i = c.index_of(p);
        assert(c.pending[i].0 == c.thumbnails[i].0);
        lemma_index_of(c1, p, i);
    }
}

/// Law: single admission — while any path is `Rendering`, an admission
/// tick starts no second job and changes nothing, however long the queue
/// is.
pub proof fn lemma_single_admission(c: CacheView, q: QueueView, s: SceneView, path: Seq<char>)
    requires
        engine_inv(c, q),
        c.has_path(path),
        c.state_of(path) == ThumbnailState::Rendering,
    ensures
        spec_admit(c, q, s) == (c, q, s, None::<JobView>),
{
    let i = c.index_of(path);
    assert(c.pending[i].0 == c.thumbnails[i].0);
    assert(q.active is Some);
}

/// Position of a lifecycle stage along `Queued → Rendering → Ready`.
/// The reserved `Loading` stage sits between `Queued` and `Rendering`,
/// and `Failed` is a terminal alternative to `Ready`.
pub open spec fn lifecycle_rank(st: ThumbnailState) -> int {
    match st {
        ThumbnailState::Queued => 0,
        ThumbnailState::Loading => 1,
        ThumbnailState::Rendering => 2,
        ThumbnailState::Ready => 3,
        ThumbnailState::Failed => 3,
    }
}

/// Law (lifecycle monotonicity, request step): a request never moves any
/// already-cached path's stage at all.
pub proof fn lemma_request_monotonic(c: CacheView, q: QueueView, path: Seq<char>, p: Seq<char>)
    requires
        engine_inv(c, q),
        c.has_path(p),
    ensures
        spec_request(c, q, path).0.state_of(p) == c.state_of(p),
        spec_request(c, q, path).0.has_path(p),
{
    let c1 = spec_request(c, q, path).0;
    let i = c.index_of(p);
    if !c.has_path(path) {
        lemma_request_preserves_inv(c, q, path);
        lemma_index_of(c1, p, i);
    }
}

/// Law (lifecycle monotonicity, admission step): an admission tick never
/// regresses any path's stage, and the only movement it makes is
/// `Queued → Rendering`.
pub proof fn lemma_admit_monotonic(c: CacheView, q: QueueView, s: SceneView, p: Seq<char>)
    requires
        engine_inv(c, q),
        c.has_path(p),
    ensures
        ({
            let c1 = spec_admit(c, q, s).0;
            &&& c1.has_path(p)
            &&& lifecycle_rank(c1.state_of(p)) >= lifecycle_rank(c.state_of(p))
            &&& (c1.state_of(p) != c.state_of(p) ==> c.state_of(p) == ThumbnailState::Queued
                && c1.state_of(p) == ThumbnailState::Rendering)
        }),
{
    let c1 = spec_admit(c, q, s).0;
    let i = c.index_of(p);
    assert(c.pending[i].0 == c.thumbnails[i].0);
    if !q.busy && q.queue.len() > 0 {
        lemma_admit_preserves_inv(c, q, s);
        lemma_index_of(c1, p, i);
        let front = q.queue[0];
        if p == front {
            assert(c.state_of(front) == ThumbnailState::Queued);
        }
    }
}

/// Law (lifecycle monotonicity, job-tick step): a job tick never
/// regresses any path's stage; the only movements it makes are
/// `Rendering → Ready` and `Rendering → Failed`, and `Ready` is reached
/// only from `Rendering` — never straight from `Queued`.
pub proof fn lemma_job_tick_monotonic(
    c: CacheView,
    q: QueueView,
    s: SceneView,
    load: LoadState,
    p: Seq<char>,
)
    requires
        engine_inv(c, q),
        c.has_path(p),
    ensures
        ({
            let c1 = spec_job_tick(c, q, s, load).0;
            &&& c1.has_path(p)
            &&& lifecycle_rank(c1.state_of(p)) >= lifecycle_rank(c.state_of(p))
            &&& (c1.state_of(p) != c.state_of(p) ==> c.state_of(p) == ThumbnailState::Rendering && (
            c1.state_of(p) == ThumbnailState::Ready || c1.state_of(p) == ThumbnailState::Failed))
        }),
{
    let c1 = spec_job_tick(c, q, s, load).0;
    let i = c.index_of(p);
    assert(c.pending[i].0 == c.thumbnails[i].0);
    if c1 != c {
        match q.active {
            Some(job) => {
                if c1.pending != c.pending {
                    lemma_index_of(c1, p, i);
                    if p == job.file_path {
                        assert(c.state_of(p) == ThumbnailState::Rendering);
                    }
                }
            },
            None => {},
        }
    }
}

/// Law (settle delay): from the tick on which the loader first reports
/// the asset `Loaded`, the path stays `Rendering` through the isolate
/// tick and two settle ticks, and the third settle tick makes it `Ready`
/// — whatever the loader reports meanwhile.
pub proof fn lemma_settle_delay(
    c: CacheView,
    q: QueueView,
    s: SceneView,
    la: LoadState,
    lb: LoadState,
    lc: LoadState,
)
    requires
        engine_inv(c, q),
        scene_inv(s, q.active),
        q.active is Some,
        !q.active->0.loaded,
    ensures
        ({
            let path = q.active->0.file_path;
            let (c1, q1, s1, t1) = spec_job_tick(c, q, s, LoadState::Loaded);
            let (c2, q2, s2, t2) = spec_job_tick(c1, q1, s1, la);
            let (c3, q3, s3, t3) = spec_job_tick(c2, q2, s2, lb);
            let (c4, q4, s4, t4) = spec_job_tick(c3, q3, s3, lc);
            &&& t1 == JobStep::Isolate && c1.state_of(path) == ThumbnailState::Rendering
            &&& t2 == JobStep::Settling && c2.state_of(path) == ThumbnailState::Rendering
            &&& t3 == JobStep::Settling && c3.state_of(path) == ThumbnailState::Rendering
            &&& t4 == JobStep::Finalized && c4.state_of(path) == ThumbnailState::Ready
        }),
{
    let path = q.active->0.file_path;
    let (c1, q1, s1, t1) = spec_job_tick(c, q, s, LoadState::Loaded);
    let (c2, q2, s2, t2) = spec_job_tick(c1, q1, s1, la);
    let (c3, q3, s3, t3) = spec_job_tick(c2, q2, s2, lb);
    let (c4, q4, s4, t4) = spec_job_tick(c3, q3, s3, lc);
    let i = c.index_of(path);
    assert(c.pending[i].0 == c.thumbnails[i].0);
    assert(c3.state_of(path) == ThumbnailState::Rendering);
    assert(c4.pending == set_state(c3.pending, path, ThumbnailState::Ready));
    assert(c4.state_of(path) == ThumbnailState::Ready);
}

/// Law (release on completion): the tick that makes a path `Ready` also
/// clears `busy` in the same tick, and if the queue is non-empty the very
/// next admission tick starts a job for the next queued path.
pub proof fn lemma_release_on_completion(c: CacheView, q: QueueView, s: SceneView, load: LoadState)
    requires
        engine_inv(c, q),
        scene_inv(s, q.active),
        q.active is Some,
        q.active->0.loaded,
        q.active->0.frames_remaining == 1,
    ensures
        ({
            let path = q.active->0.file_path;
            let (c1, q1, s1, t1) = spec_job_tick(c, q, s, load);
            &&& t1 == JobStep::Finalized
            &&& c1.state_of(path) == ThumbnailState::Ready
            &&& q1.busy == false
            &&& q.queue.len() > 0 ==> {
                let (c2, q2, s2, j2) = spec_admit(c1, q1, s1);
                &&& j2 is Some
                &&& j2->0.file_path == q.queue[0]
                &&& c2.state_of(q.queue[0]) == ThumbnailState::Rendering
            }
        }),
{
    let path = q.active->0.file_path;
    let (c1, q1, s1, t1) = spec_job_tick(c, q, s, load);
    let i = c.index_of(path);
    assert(c.pending[i].0 == c.thumbnails[i].0);
    lemma_finalize_preserves_inv(c, q, s, ThumbnailState::Ready);
    assert(c1.state_of(path) == ThumbnailState::Ready);
    if q.queue.len() > 0 {
        lemma_fifo_admission(c1, q1, s1);
        assert(q1.queue == q.queue);
    }
}

} // verus!
