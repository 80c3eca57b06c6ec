use std::sync::mpsc::Receiver;
use std::sync::mpsc::SyncSender;
use std::sync::mpsc::TryRecvError;
use vstd::prelude::*;

use crate::buffer::FrameBuffer;
use crate::buffer::is_scaled;
use crate::buffer::same_buffer;
use crate::fixel::MAX_RESOLUTION;
use crate::pixel::spec_background;
use crate::partition::MAX_WORKERS;
use crate::pixel::Pixel;

verus! {

/// The refinement depth after one frame: one step deeper until the cap `m`,
/// then unchanged.
pub open spec fn depth_step(d: int, m: int) -> int {
    if d < m {
        d + 1
    } else {
        d
    }
}

/// Depth monotonicity: a worker's refinement depth over successive frames,
/// starting at or below the cap and advancing by `depth_step`, never
/// decreases, never exceeds the cap, and once at the cap it stays there
/// exactly.
pub proof fn lemma_depth_monotone(depths: Seq<int>, m: int)
    requires
        depths.len() >= 1,
        depths[0] <= m,
        forall|i: int|
            0 <= i < depths.len() - 1 ==> depths[i + 1] == depth_step(#[trigger] depths[i], m),
    ensures
        forall|i: int, j: int|
            #![trigger depths[i], depths[j]]
            0 <= i <= j < depths.len() ==> depths[i] <= depths[j],
        forall|i: int| 0 <= i < depths.len() ==> #[trigger] depths[i] <= m,
        forall|i: int|
            0 <= i < depths.len() - 1 && depths[i] == m ==> #[trigger] depths[i + 1] == m,
{
    assert forall|i: int| 0 <= i < depths.len() implies #[trigger] depths[i] <= m by {
        lemma_depth_bounded(depths, m, i);
    }
    assert forall|i: int, j: int|
        #![trigger depths[i], depths[j]]
        0 <= i <= j < depths.len() implies depths[i] <= depths[j] by {
        lemma_depth_pair(depths, m, i, j);
    }
}

proof fn lemma_depth_bounded(depths: Seq<int>, m: int, i: int)
    requires
        depths.len() >= 1,
        depths[0] <= m,
        forall|k: int|
            0 <= k < depths.len() - 1 ==> depths[k + 1] == depth_step(#[trigger] depths[k], m),
        0 <= i < depths.len(),
    ensures
        depths[i] <= m,
    decreases i,
{
    if i > 0 {
        lemma_depth_bounded(depths, m, i - 1);
    }
}

proof fn lemma_depth_pair(depths: Seq<int>, m: int, i: int, j: int)
    requires
        depths.len() >= 1,
        depths[0] <= m,
        forall|k: int|
            0 <= k < depths.len() - 1 ==> depths[k + 1] == depth_step(#[trigger] depths[k], m),
        0 <= i <= j < depths.len(),
    ensures
        depths[i] <= depths[j],
    decreases j - i,
{
    if i < j {
        lemma_depth_pair(depths, m, i, j - 1);
    }
}

/// What a worker draws: one of these runs inside each worker task. The spec
/// functions expose the app's pixel dimensions, refinement depth, and the
/// color it currently assigns to each coordinate; `get_pixel` must answer any
/// coordinate, in or out of range.
pub trait DrawingApp: Sized {
    /// The app's internal invariant; every operation preserves it.
    spec fn inv(&self) -> bool;

    spec fn width_px(&self) -> int;

    spec fn height_px(&self) -> int;

    /// The refinement depth reached so far.
    spec fn depth(&self) -> int;

    /// The cap the refinement depth never exceeds.
    spec fn max_depth(&self) -> int;

    /// The color currently assigned to a pixel coordinate.
    spec fn pixel_at(&self, x: int, y: int) -> Pixel;

    /// A fresh app for worker `id` out of `max_id`, drawing at `x` by `y`
    /// pixels.
    fn new(id: usize, max_id: usize, x: u32, y: u32) -> (r: Self)
        requires
            1 <= max_id <= MAX_WORKERS,
            id < max_id,
            1 <= x <= MAX_RESOLUTION as u32,
            1 <= y <= MAX_RESOLUTION as u32,
        ensures
            r.inv(),
            r.width_px() == x,
            r.height_px() == y,
            r.depth() <= r.max_depth(),
    ;

    /// The color of one pixel; reading mutates nothing.
    fn get_pixel(&mut self, x: u32, y: u32) -> (p: Pixel)
        requires
            old(self).inv(),
        ensures
            *final(self) == *old(self),
            p == old(self).pixel_at(x as int, y as int),
    ;

    /// A hook called once per scanline before the line is drawn.
    fn next_line(&mut self, y: u32)
        requires
            old(self).inv(),
        ensures
            final(self).inv(),
            final(self).width_px() == old(self).width_px(),
            final(self).height_px() == old(self).height_px(),
            final(self).depth() == old(self).depth(),
            final(self).max_depth() == old(self).max_depth(),
    ;

    /// Called when a new frame begins: advances the refinement depth by
    /// exactly one step, up to the cap.
    fn next_frame(&mut self)
        requires
            old(self).inv(),
        ensures
            final(self).inv(),
            final(self).width_px() == old(self).width_px(),
            final(self).height_px() == old(self).height_px(),
            final(self).max_depth() == old(self).max_depth(),
            final(self).depth() == depth_step(old(self).depth(), old(self).max_depth()),
    ;

    /// Rebuilds the app's state for a new resolution, preserving accumulated
    /// refinement.
    fn resize(&mut self, new_x: u32, new_y: u32)
        requires
            old(self).inv(),
            1 <= new_x <= MAX_RESOLUTION as u32,
            1 <= new_y <= MAX_RESOLUTION as u32,
        ensures
            final(self).inv(),
            final(self).width_px() == new_x,
            final(self).height_px() == new_y,
            final(self).depth() == old(self).depth(),
            final(self).max_depth() == old(self).max_depth(),
    ;
}

/// The scanline a drawing step renders when the cursor stands at `line` in a
/// buffer `h` lines tall: the cursor itself, wrapped to the first line when
/// it ran past the end (which happens right after a resize shrank the
/// buffer).
pub open spec fn drawn_line(line: int, h: int) -> int {
    if line >= h {
        0
    } else {
        line
    }
}

/// The scanline cursor after one drawing step that drew line `line` (clamped
/// into range) of a buffer `h` lines tall.
pub open spec fn next_cursor(line: int, h: int) -> int {
    if drawn_line(line, h) + 1 >= h {
        0
    } else {
        drawn_line(line, h) + 1
    }
}

/// One rendering step from `(s0, b0)` to `(s1, b1)`: a new frame begins
/// (one refinement step) when the cursor wraps to the first line, exactly the
/// drawn scanline is rewritten from the app's colors, every other pixel is
/// untouched, and the cursor advances.
pub open spec fn draw_step<A: DrawingApp>(
    s0: ThreadWorkerState<A>,
    b0: FrameBuffer,
    s1: ThreadWorkerState<A>,
    b1: FrameBuffer,
) -> bool {
    &&& s1.app.inv()
    &&& b1.wf()
    &&& b1.width == b0.width
    &&& b1.height == b0.height
    &&& s1.line == next_cursor(s0.line as int, b0.height as int)
    &&& s1.app.width_px() == s0.app.width_px()
    &&& s1.app.height_px() == s0.app.height_px()
    &&& s1.app.max_depth() == s0.app.max_depth()
    &&& s1.app.depth() == (if drawn_line(s0.line as int, b0.height as int) == 0 {
        depth_step(s0.app.depth(), s0.app.max_depth())
    } else {
        s0.app.depth()
    })
    &&& forall|x: int|
        0 <= x < b0.width ==> #[trigger] b1.spec_pixel(
            x,
            drawn_line(s0.line as int, b0.height as int),
        ) == s1.app.pixel_at(x, drawn_line(s0.line as int, b0.height as int))
    &&& forall|a: int, b: int|
        0 <= a < b0.width && 0 <= b < b0.height && b != drawn_line(
            s0.line as int,
            b0.height as int,
        ) ==> #[trigger] b1.spec_pixel(a, b) == b0.spec_pixel(a, b)
}

/// A worker's rendering state: the drawing app and the scanline cursor that
/// drives the one-line-per-tick render loop.
pub struct ThreadWorkerState<A> {
    pub line: u32,
    pub app: A,
}

impl<A: DrawingApp> ThreadWorkerState<A> {
    pub fn new(app: A) -> (s: Self)
        ensures
            s.line == 0,
            s.app == app,
    {
        Self { line: 0, app }
    }

    pub fn resize(&mut self, x: u32, y: u32)
        requires
            old(self).app.inv(),
            1 <= x <= MAX_RESOLUTION as u32,
            1 <= y <= MAX_RESOLUTION as u32,
        ensures
            final(self).app.inv(),
            final(self).app.width_px() == x,
            final(self).app.height_px() == y,
            final(self).app.depth() == old(self).app.depth(),
            final(self).app.max_depth() == old(self).app.max_depth(),
            final(self).line == old(self).line,
    {
        self.app.resize(x, y);
    }

    /// One tick of rendering: begins a new frame (one refinement step) when
    /// the cursor wraps to the first line, redraws exactly that scanline from
    /// the app's current classifications, and advances the cursor. Returns
    /// the number of pixels written.
    pub fn draw(&mut self, buf: &mut FrameBuffer) -> (n: u32)
        requires
            old(self).app.inv(),
            old(buf).wf(),
            old(buf).height >= 1,
        ensures
            draw_step(*old(self), *old(buf), *final(self), *final(buf)),
            n == old(buf).width,
    {
        if self.line >= buf.height {
            self.line = 0;
        }
        let y = self.line;
        if y == 0 {
            self.app.next_frame();
        }
        self.app.next_line(y);
        let ghost app0 = self.app;
        let mut x: u32 = 0;
        while x < buf.width
            invariant
                self.app.inv(),
                self.app == app0,
                buf.wf(),
                buf.width == old(buf).width,
                buf.height == old(buf).height,
                y < buf.height,
                x <= buf.width,
                forall|k: int| 0 <= k < x ==> buf.spec_pixel(k, y as int) == app0.pixel_at(
                    k,
                    y as int,
                ),
                forall|a: int, b: int|
                    0 <= a < old(buf).width && 0 <= b < old(buf).height && !(b == y && a < x)
                        ==> buf.spec_pixel(a, b) == old(buf).spec_pixel(a, b),
            decreases buf.width - x,
        {
            let p = self.app.get_pixel(x, y);
            buf.put_pixel(x, y, p);
            x = x + 1;
        }
        self.line = y + 1;
        if self.line >= buf.height {
            self.line = 0;
        }
        buf.width
    }
}

/// The smallest resolution a resize may set on either axis.
pub const MIN_RESOLUTION: u32 = 16;

/// A control message for one worker, consumed exactly once: either a request
/// to snapshot the current buffer, or a new resolution together with the
/// fresh draw channel that replaces the worker's old one.
pub enum Command {
    NewResolution(u32, u32, SyncSender<FrameBuffer>),
    NeedUpdate,
}

/// The worker-side ends of one worker's two mailboxes: the control mailbox it
/// reads and the draw mailbox it sends snapshots on.
pub struct WorkerEnd {
    pub control_rx: Receiver<Command>,
    pub draw_tx: SyncSender<FrameBuffer>,
}

/// What one non-blocking poll of a control mailbox produced.
pub enum CtrlPoll {
    Msg(Command),
    Empty,
    Closed,
}

/// What one non-blocking poll of a draw mailbox produced.
pub enum PollOutcome {
    Fresh(FrameBuffer),
    Pending,
    Closed,
}

/// The sending half of a bounded channel from the standard library.
#[verifier::external_type_specification]
#[verifier::external_body]
#[verifier::reject_recursive_types(T)]
pub struct ExSyncSender<T>(SyncSender<T>);

/// The receiving half of a channel from the standard library.
#[verifier::external_type_specification]
#[verifier::external_body]
#[verifier::reject_recursive_types(T)]
pub struct ExReceiver<T>(Receiver<T>);

/// Relies on std::sync::mpsc::sync_channel: a bounded channel of the given
/// capacity, returned as its two endpoints.
#[verifier::external_body]
pub(crate) fn channel_of_commands(bound: usize) -> (r: (SyncSender<Command>, Receiver<Command>)) {
    std::sync::mpsc::sync_channel(bound)
}

/// Relies on std::sync::mpsc::sync_channel: a bounded channel of the given
/// capacity, returned as its two endpoints.
#[verifier::external_body]
pub(crate) fn channel_of_buffers(bound: usize) -> (r: (
    SyncSender<FrameBuffer>,
    Receiver<FrameBuffer>,
)) {
    std::sync::mpsc::sync_channel(bound)
}

/// Relies on std::sync::mpsc::SyncSender::try_send: never blocks; the message
/// is accepted only when the channel has room and a receiver is alive.
#[verifier::external_body]
pub(crate) fn try_send_command(tx: &SyncSender<Command>, c: Command) -> (ok: bool) {
    tx.try_send(c).is_ok()
}

/// Relies on std::sync::mpsc::SyncSender::send: blocks until the bounded
/// channel has room; false once the receiver is gone. The resize path uses it
/// so a resolution change is never silently dropped.
#[verifier::external_body]
pub(crate) fn send_command(tx: &SyncSender<Command>, c: Command) -> (ok: bool) {
    tx.send(c).is_ok()
}

/// Relies on std::sync::mpsc::SyncSender::try_send: never blocks; the message
/// is accepted only when the channel has room and a receiver is alive.
#[verifier::external_body]
pub(crate) fn try_send_buffer(tx: &SyncSender<FrameBuffer>, b: FrameBuffer) -> (ok: bool) {
    tx.try_send(b).is_ok()
}

/// Relies on std::sync::mpsc::Receiver::try_recv: never blocks; Empty while
/// no message waits, Disconnected once the sender is gone for good.
#[verifier::external_body]
pub(crate) fn poll_control(rx: &Receiver<Command>) -> (r: CtrlPoll) {
    match rx.try_recv() {
        Ok(c) => CtrlPoll::Msg(c),
        Err(TryRecvError::Empty) => CtrlPoll::Empty,
        Err(TryRecvError::Disconnected) => CtrlPoll::Closed,
    }
}

/// Relies on std::sync::mpsc::Receiver::try_recv: never blocks; Empty while
/// no message waits, Disconnected once the sender is gone for good.
#[verifier::external_body]
pub(crate) fn poll_draw(rx: &Receiver<FrameBuffer>) -> (r: PollOutcome) {
    match rx.try_recv() {
        Ok(b) => PollOutcome::Fresh(b),
        Err(TryRecvError::Empty) => PollOutcome::Pending,
        Err(TryRecvError::Disconnected) => PollOutcome::Closed,
    }
}

/// What one worker tick does, given what the control poll produced. A closed
/// mailbox ends the worker and leaves everything untouched. A pending or
/// absent command still renders one scanline: command handling never starves
/// computation. A snapshot request sends a copy and leaves the worker's own
/// buffer to the same one rendering step. An in-range resolution change
/// resizes the app, rescales the buffer (overlap preserved, new area
/// background), adopts the reply channel for all future snapshots, and then
/// renders one scanline of the new buffer; an out-of-range one is ignored and
/// the tick only renders.
pub open spec fn tick_rel<A: DrawingApp>(
    p: CtrlPoll,
    s0: ThreadWorkerState<A>,
    b0: FrameBuffer,
    e0: WorkerEnd,
    s1: ThreadWorkerState<A>,
    b1: FrameBuffer,
    e1: WorkerEnd,
    alive: bool,
) -> bool {
    match p {
        CtrlPoll::Closed => !alive && s1 == s0 && same_buffer(b1, b0) && e1 == e0,
        CtrlPoll::Empty => alive && draw_step(s0, b0, s1, b1) && e1 == e0,
        CtrlPoll::Msg(c) => match c {
            Command::NeedUpdate => alive && draw_step(s0, b0, s1, b1) && e1 == e0,
            Command::NewResolution(nx, ny, tx) => alive && {
                if 1 <= nx <= MAX_RESOLUTION && 1 <= ny <= MAX_RESOLUTION {
                    &&& s1.app.inv()
                    &&& b1.wf()
                    &&& s1.app.width_px() == nx
                    &&& s1.app.height_px() == ny
                    &&& b1.width == nx
                    &&& b1.height == ny
                    &&& s1.line == next_cursor(s0.line as int, ny as int)
                    &&& s1.app.max_depth() == s0.app.max_depth()
                    &&& s1.app.depth() == (if drawn_line(s0.line as int, ny as int) == 0 {
                        depth_step(s0.app.depth(), s0.app.max_depth())
                    } else {
                        s0.app.depth()
                    })
                    &&& forall|x: int|
                        0 <= x < nx ==> #[trigger] b1.spec_pixel(
                            x,
                            drawn_line(s0.line as int, ny as int),
                        ) == s1.app.pixel_at(x, drawn_line(s0.line as int, ny as int))
                    &&& forall|a: int, b: int|
                        0 <= a < nx && 0 <= b < ny && b != drawn_line(s0.line as int, ny as int)
                            ==> #[trigger] b1.spec_pixel(a, b) == (if a < b0.width && b
                            < b0.height {
                            b0.spec_pixel(a, b)
                        } else {
                            crate::pixel::spec_background()
                        })
                    &&& e1.control_rx == e0.control_rx
                    &&& e1.draw_tx == tx
                } else {
                    draw_step(s0, b0, s1, b1) && e1 == e0
                }
            },
        },
    }
}

/// One iteration of a worker's non-blocking loop: service at most one control
/// message, then render one scanline regardless, so command handling never
/// starves computation. A snapshot request copies the buffer and tries one
/// non-blocking send; a failed send is skipped silently. A resolution change
/// reflows the app, rescales the buffer, and adopts the fresh draw channel. A
/// disconnected control mailbox ends the worker: the tick reports it is no
/// longer alive and changes nothing. `tick_rel` pins the outcome for each
/// possible poll result.
pub fn worker_tick<A: DrawingApp>(
    end: &mut WorkerEnd,
    state: &mut ThreadWorkerState<A>,
    buf: &mut FrameBuffer,
) -> (alive: bool)
    requires
        old(state).app.inv(),
        old(buf).wf(),
        old(buf).height >= 1,
        old(state).app.depth() <= old(state).app.max_depth(),
    ensures
        final(state).app.inv(),
        final(buf).wf(),
        final(buf).height >= 1,
        final(state).app.max_depth() == old(state).app.max_depth(),
        old(state).app.depth() <= final(state).app.depth() <= old(state).app.max_depth(),
        exists|p: CtrlPoll|
            #[trigger] tick_rel(
                p,
                *old(state),
                *old(buf),
                *old(end),
                *final(state),
                *final(buf),
                *final(end),
                alive,
            ),
{
    let ghost s0 = *state;
    let ghost b0 = *buf;
    let ghost e0 = *end;
    let r = poll_control(&end.control_rx);
    let ghost p = r;
    match r {
        CtrlPoll::Msg(Command::NeedUpdate) => {
            let snapshot = buf.duplicate();
            let _accepted = try_send_buffer(&end.draw_tx, snapshot);
            // Whether or not the send was accepted, this tick still renders
            // one scanline: computation is never starved.
        },
        CtrlPoll::Msg(Command::NewResolution(nx, ny, tx)) => {
            if 1 <= nx && nx <= MAX_RESOLUTION as u32 && 1 <= ny && ny <= MAX_RESOLUTION as u32 {
                state.resize(nx, ny);
                let nb = buf.scale(nx, ny);
                *buf = nb;
                end.draw_tx = tx;
            }
            // A resolution outside the supported range cannot come from the
            // manager, which clamps; an unverified sender's request is
            // ignored rather than acted on.
        },
        CtrlPoll::Closed => {
            proof {
                assert(tick_rel(p, s0, b0, e0, *state, *buf, *end, false));
            }
            return false;
        },
        CtrlPoll::Empty => {},
    }
    let ghost sm = *state;
    let ghost bm = *buf;
    state.draw(buf);
    proof {
        assert(draw_step(sm, bm, *state, *buf));
        assert(tick_rel(p, s0, b0, e0, *state, *buf, *end, true));
    }
    true
}

/// A worker's life over a sequence of poll outcomes, in order: every
/// non-closing outcome steps the state by `tick_rel` and the run continues; a
/// closed mailbox is the last outcome and ends the run; no outcomes change
/// nothing.
pub open spec fn ticks_rel<A: DrawingApp>(
    ps: Seq<CtrlPoll>,
    s0: ThreadWorkerState<A>,
    b0: FrameBuffer,
    e0: WorkerEnd,
    s1: ThreadWorkerState<A>,
    b1: FrameBuffer,
    e1: WorkerEnd,
    alive: bool,
) -> bool
    decreases ps.len(),
{
    if ps.len() == 0 {
        alive && s1 == s0 && b1 == b0 && e1 == e0
    } else if ps[0] is Closed {
        ps.len() == 1 && !alive && tick_rel(ps[0], s0, b0, e0, s1, b1, e1, false)
    } else {
        exists|sm: ThreadWorkerState<A>, bm: FrameBuffer, em: WorkerEnd|
            #[trigger] tick_rel(ps[0], s0, b0, e0, sm, bm, em, true) && ticks_rel(
                ps.skip(1),
                sm,
                bm,
                em,
                s1,
                b1,
                e1,
                alive,
            )
    }
}

/// A run of outcomes followed by one more tick is a run of the extended
/// outcome sequence.
proof fn lemma_ticks_rel_snoc<A: DrawingApp>(
    ps: Seq<CtrlPoll>,
    p: CtrlPoll,
    s0: ThreadWorkerState<A>,
    b0: FrameBuffer,
    e0: WorkerEnd,
    sm: ThreadWorkerState<A>,
    bm: FrameBuffer,
    em: WorkerEnd,
    s1: ThreadWorkerState<A>,
    b1: FrameBuffer,
    e1: WorkerEnd,
    alive: bool,
)
    requires
        ticks_rel(ps, s0, b0, e0, sm, bm, em, true),
        tick_rel(p, sm, bm, em, s1, b1, e1, alive),
    ensures
        ticks_rel(ps.push(p), s0, b0, e0, s1, b1, e1, alive),
    decreases ps.len(),
{
    let q = ps.push(p);
    assert(q[0] == if ps.len() == 0 {
        p
    } else {
        ps[0]
    });
    assert(q.skip(1) =~= if ps.len() == 0 {
        Seq::<CtrlPoll>::empty()
    } else {
        ps.skip(1).push(p)
    });
    if ps.len() == 0 {
        if p is Closed {
            assert(!alive);
            assert(tick_rel(p, s0, b0, e0, s1, b1, e1, false));
        } else {
            assert(alive);
            assert(tick_rel(q[0], s0, b0, e0, s1, b1, e1, true));
            assert(ticks_rel(q.skip(1), s1, b1, e1, s1, b1, e1, true));
        }
    } else {
        let (sa, ba, ea) = choose|sa: ThreadWorkerState<A>, ba: FrameBuffer, ea: WorkerEnd|
            #[trigger] tick_rel(ps[0], s0, b0, e0, sa, ba, ea, true) && ticks_rel(
                ps.skip(1),
                sa,
                ba,
                ea,
                sm,
                bm,
                em,
                true,
            );
        lemma_ticks_rel_snoc(ps.skip(1), p, sa, ba, ea, sm, bm, em, s1, b1, e1, alive);
        assert(tick_rel(q[0], s0, b0, e0, sa, ba, ea, true));
        assert(ticks_rel(q.skip(1), sa, ba, ea, s1, b1, e1, alive));
    }
}

/// A stretch of a worker's life: up to `ticks` iterations of `worker_tick`,
/// ending early exactly when a tick found the control mailbox disconnected
/// (every other outcome keeps the worker alive, by `tick_rel`). Returns
/// whether the worker is still alive, so the hosting task can keep calling
/// for as long as it runs. The refinement depth never decreases and never
/// passes its cap; zero ticks change nothing.
pub fn run_worker<A: DrawingApp>(
    end: &mut WorkerEnd,
    state: &mut ThreadWorkerState<A>,
    buf: &mut FrameBuffer,
    ticks: u64,
) -> (alive: bool)
    requires
        old(state).app.inv(),
        old(buf).wf(),
        old(buf).height >= 1,
        old(state).app.depth() <= old(state).app.max_depth(),
    ensures
        final(state).app.inv(),
        final(buf).wf(),
        final(buf).height >= 1,
        final(state).app.max_depth() == old(state).app.max_depth(),
        old(state).app.depth() <= final(state).app.depth() <= old(state).app.max_depth(),
        exists|ps: Seq<CtrlPoll>|
            {
                &&& #[trigger] ticks_rel(
                    ps,
                    *old(state),
                    *old(buf),
                    *old(end),
                    *final(state),
                    *final(buf),
                    *final(end),
                    alive,
                )
                &&& ps.len() <= ticks
                &&& (alive ==> ps.len() == ticks)
            },
        ticks == 0 ==> alive && *final(state) == *old(state) && same_buffer(
            *final(buf),
            *old(buf),
        ) && *final(end) == *old(end),
{
    let mut t: u64 = 0;
    proof {
        assert(ticks_rel(
            Seq::<CtrlPoll>::empty(),
            *old(state),
            *old(buf),
            *old(end),
            *state,
            *buf,
            *end,
            true,
        ));
    }
    let ghost mut outs: Seq<CtrlPoll> = Seq::empty();
    while t < ticks
        invariant
            state.app.inv(),
            buf.wf(),
            buf.height >= 1,
            state.app.max_depth() == old(state).app.max_depth(),
            old(state).app.depth() <= state.app.depth() <= state.app.max_depth(),
            t <= ticks,
            outs.len() == t,
            ticks_rel(outs, *old(state), *old(buf), *old(end), *state, *buf, *end, true),
            t == 0 ==> *state == *old(state) && same_buffer(*buf, *old(buf)) && *end == *old(
                end,
            ),
        decreases ticks - t,
    {
        let ghost sp = *state;
        let ghost bp = *buf;
        let ghost ep = *end;
        let alive_now = worker_tick(end, state, buf);
        proof {
            let p = choose|p: CtrlPoll|
                tick_rel(p, sp, bp, ep, *state, *buf, *end, alive_now);
            lemma_ticks_rel_snoc(
                outs,
                p,
                *old(state),
                *old(buf),
                *old(end),
                sp,
                bp,
                ep,
                *state,
                *buf,
                *end,
                alive_now,
            );
            outs = outs.push(p);
        }
        if !alive_now {
            return false;
        }
        t = t + 1;
    }
    true
}

/// The manager's record of one live worker: the control mailbox it commands
/// the worker through, the draw mailbox it collects snapshots from, the last
/// buffer collected, and the worker's vertical placement as the exact
/// fraction span_num / span_den.
pub struct PerThread {
    pub control_tx: SyncSender<Command>,
    pub draw_rx: Receiver<FrameBuffer>,
    pub buf: FrameBuffer,
    pub span_num: usize,
    pub span_den: usize,
}

impl PerThread {
    pub open spec fn wf(self) -> bool {
        &&& self.buf.wf()
        &&& self.span_den >= 1
        &&& self.span_num < self.span_den
    }

    /// Creates the two mailboxes for one worker (control bounded at 1, draw
    /// at 2) and the manager-side record; the worker-side ends are handed
    /// back for the caller to run a worker on.
    fn new(x: u32, y: u32, id: usize, max_id: usize) -> (r: (PerThread, WorkerEnd))
        requires
            x <= MAX_RESOLUTION as u32,
            y <= MAX_RESOLUTION as u32,
            id < max_id,
        ensures
            r.0.wf(),
            r.0.buf.width == x,
            r.0.buf.height == y,
            forall|a: int, b: int|
                0 <= a < x && 0 <= b < y ==> r.0.buf.spec_pixel(a, b) == spec_background(),
            r.0.span_num == id,
            r.0.span_den == max_id,
    {
        let (control_tx, control_rx) = channel_of_commands(1);
        let (draw_tx, draw_rx) = channel_of_buffers(2);
        let sp = crate::partition::span(id, max_id);
        let pt = PerThread {
            control_tx,
            draw_rx,
            buf: FrameBuffer::new(x, y),
            span_num: sp.0,
            span_den: sp.1,
        };
        (pt, WorkerEnd { control_rx, draw_tx })
    }

    /// Non-blocking snapshot request; a full or closed mailbox drops it.
    fn request_update(&self) {
        let _ = try_send_command(&self.control_tx, Command::NeedUpdate);
    }

    /// Sends the new resolution together with a fresh draw channel (the one
    /// potentially blocking send of the protocol), then rescales the cached
    /// buffer. On a dead worker nothing is changed and false comes back.
    fn resize(&mut self, x: u32, y: u32) -> (ok: bool)
        requires
            old(self).wf(),
            1 <= x <= MAX_RESOLUTION as u32,
            1 <= y <= MAX_RESOLUTION as u32,
        ensures
            final(self).wf(),
            final(self).span_num == old(self).span_num,
            final(self).span_den == old(self).span_den,
            ok ==> is_scaled(old(self).buf, final(self).buf, x as int, y as int),
            !ok ==> *final(self) == *old(self),
    {
        let (new_tx, new_rx) = channel_of_buffers(2);
        if !send_command(&self.control_tx, Command::NewResolution(x, y, new_tx)) {
            return false;
        }
        self.draw_rx = new_rx;
        let nb = self.buf.scale(x, y);
        self.buf = nb;
        true
    }
}

/// What one collection step does to one worker record: a pending mailbox
/// keeps it as it is, a fresh well-formed buffer replaces its cached one, and
/// a closed mailbox retires the worker.
pub open spec fn apply_outcome(t: PerThread, o: PollOutcome) -> Option<PerThread> {
    match o {
        PollOutcome::Pending => Some(t),
        PollOutcome::Fresh(b) => Some(
            PerThread {
                buf: if b.wf() {
                    b
                } else {
                    t.buf
                },
                ..t
            },
        ),
        PollOutcome::Closed => None,
    }
}

/// The roster after one collection pass, given each worker's poll outcome in
/// order: survivors keep their order; retired workers disappear.
pub open spec fn collect_model(ts: Seq<PerThread>, outs: Seq<PollOutcome>) -> Seq<PerThread>
    decreases ts.len(),
{
    if ts.len() == 0 {
        Seq::empty()
    } else {
        collect_model(ts.drop_last(), outs.drop_last()) + (match apply_outcome(
            ts.last(),
            outs.last(),
        ) {
            Some(t) => seq![t],
            None => Seq::<PerThread>::empty(),
        })
    }
}

/// Non-blocking safety: a collection pass in which every worker's draw
/// mailbox was still empty leaves the roster, its order, and every cached
/// buffer exactly as they were.
pub proof fn lemma_idle_collect_keeps_buffers(ts: Seq<PerThread>, outs: Seq<PollOutcome>)
    requires
        outs.len() == ts.len(),
        forall|i: int| 0 <= i < outs.len() ==> outs[i] is Pending,
    ensures
        collect_model(ts, outs) == ts,
    decreases ts.len(),
{
    if ts.len() > 0 {
        lemma_idle_collect_keeps_buffers(ts.drop_last(), outs.drop_last());
        assert(collect_model(ts, outs) =~= ts);
    }
}

/// One buffer-and-placement pair handed to the display layer: a copy of a
/// worker's latest frame and the exact vertical fraction span_num / span_den
/// at which it is composited.
pub struct TextureData {
    pub texture: FrameBuffer,
    pub span_num: usize,
    pub span_den: usize,
}

/// A lazy, restartable walk over the live workers' buffers in partition
/// order.
pub struct TextureIterator<'a> {
    pub pool: &'a Threads,
    pub pos: usize,
}

/// The worker pool manager: owns the manager-side record of every live
/// worker, and the resolution it believes the pool is rendering at.
pub struct Threads {
    pub cpus: usize,
    pub threads: Vec<PerThread>,
    pub x: u32,
    pub y: u32,
}

impl Threads {
    /// The roster count matches the records, every record is well formed, and
    /// the pool is small enough that each worker keeps at least one pixel row
    /// at the minimum resolution.
    pub open spec fn wf(self) -> bool {
        &&& self.cpus == self.threads@.len()
        &&& self.threads@.len() <= MAX_RESOLUTION
        &&& forall|i: int| 0 <= i < self.threads@.len() ==> (#[trigger] self.threads@[i]).wf()
    }

    /// A pool of `cpus` workers over an `x` by `y` image: worker `cpu` gets a
    /// buffer of the full width and a `1/cpus` share of the height, and the
    /// pair of mailbox ends to run on. The caller gives each returned
    /// `WorkerEnd` to a worker task.
    pub fn new(x: u32, y: u32, cpus: usize) -> (r: (Threads, Vec<WorkerEnd>))
        requires
            1 <= x <= MAX_RESOLUTION as u32,
            1 <= y <= MAX_RESOLUTION as u32,
            1 <= cpus,
            cpus <= y as usize,
        ensures
            r.0.wf(),
            r.0.cpus == cpus,
            r.0.x == x,
            r.0.y == y,
            r.1@.len() == cpus,
            forall|i: int|
                0 <= i < cpus ==> {
                    &&& (#[trigger] r.0.threads@[i]).span_num == i
                    &&& r.0.threads@[i].span_den == cpus
                    &&& r.0.threads@[i].buf.width == x
                    &&& r.0.threads@[i].buf.height == y / (cpus as u32)
                    &&& forall|a: int, b: int|
                        0 <= a < x && 0 <= b < y / (cpus as u32)
                            ==> r.0.threads@[i].buf.spec_pixel(a, b) == spec_background()
                },
    {
        let mut threads: Vec<PerThread> = Vec::new();
        let mut ends: Vec<WorkerEnd> = Vec::new();
        proof {
            vstd::arithmetic::div_mod::lemma_div_is_ordered(cpus as int, y as int, cpus as int);
            vstd::arithmetic::div_mod::lemma_div_by_self(cpus as int);
            vstd::arithmetic::div_mod::lemma_div_nonincreasing(y as int, cpus as int);
        }
        let per = y / (cpus as u32);
        let mut cpu: usize = 0;
        while cpu < cpus
            invariant
                1 <= x <= MAX_RESOLUTION as u32,
                1 <= y <= MAX_RESOLUTION as u32,
                1 <= cpus,
                cpus <= y as usize,
                per == y as int / cpus as int,
                1 <= per <= MAX_RESOLUTION as u32,
                cpu <= cpus,
                threads@.len() == cpu,
                ends@.len() == cpu,
                forall|i: int|
                    0 <= i < cpu ==> {
                        &&& (#[trigger] threads@[i]).wf()
                        &&& threads@[i].span_num == i
                        &&& threads@[i].span_den == cpus
                        &&& threads@[i].buf.width == x
                        &&& threads@[i].buf.height == per
                        &&& forall|a: int, b: int|
                            0 <= a < x && 0 <= b < per ==> threads@[i].buf.spec_pixel(a, b)
                                == spec_background()
                    },
            decreases cpus - cpu,
        {
            let (pt, end) = PerThread::new(x, per, cpu, cpus);
            threads.push(pt);
            ends.push(end);
            cpu = cpu + 1;
        }
        (Threads { cpus, threads, x, y }, ends)
    }

    /// Broadcasts a non-blocking snapshot request to every worker; a full
    /// control mailbox means the previous request is still pending and the
    /// new one is simply dropped.
    pub fn request_update(&self) {
        let mut i: usize = 0;
        while i < self.threads.len()
            decreases self.threads.len() - i,
        {
            self.threads[i].request_update();
            i = i + 1;
        }
    }

    /// One collection pass: polls every worker's draw mailbox without
    /// blocking. A fresh buffer replaces that worker's cached one, a silent
    /// mailbox keeps the stale buffer, and a permanently closed mailbox
    /// retires the worker from the roster. The result is exactly
    /// `collect_model` of the old roster under the outcomes that the polls
    /// produced.
    pub fn recieve_update(&mut self)
        requires
            old(self).wf(),
        ensures
            final(self).wf(),
            final(self).x == old(self).x,
            final(self).y == old(self).y,
            final(self).cpus <= old(self).cpus,
            exists|outs: Seq<PollOutcome>|
                outs.len() == old(self).threads@.len() && final(self).threads@ == collect_model(
                    old(self).threads@,
                    outs,
                ),
    {
        let ghost orig = self.threads@;
        let ghost mut outs: Seq<PollOutcome> = Seq::empty();
        let mut kept: Vec<PerThread> = Vec::new();
        while self.threads.len() > 0
            invariant
                self.x == old(self).x,
                self.y == old(self).y,
                self.cpus == old(self).cpus,
                orig == old(self).threads@,
                outs.len() <= orig.len(),
                self.threads@ =~= orig.skip(outs.len() as int),
                kept@ == collect_model(orig.take(outs.len() as int), outs),
                kept@.len() <= outs.len(),
                forall|k: int| 0 <= k < kept@.len() ==> (#[trigger] kept@[k]).wf(),
                forall|k: int| 0 <= k < orig.len() ==> (#[trigger] orig[k]).wf(),
            decreases self.threads.len(),
        {
            let t = self.threads.remove(0);
            proof {
                assert(t == orig[outs.len() as int]);
                assert(self.threads@ =~= orig.skip(outs.len() as int + 1));
            }
            let o = poll_draw(&t.draw_rx);
            let ghost go = o;
            let ghost gt = t;
            match o {
                PollOutcome::Pending => {
                    kept.push(t);
                },
                PollOutcome::Fresh(b) => {
                    if b.check() {
                        let t2 = PerThread {
                            control_tx: t.control_tx,
                            draw_rx: t.draw_rx,
                            buf: b,
                            span_num: t.span_num,
                            span_den: t.span_den,
                        };
                        kept.push(t2);
                    } else {
                        kept.push(t);
                    }
                },
                PollOutcome::Closed => {},
            }
            proof {
                let n = outs.len() as int;
                let outs2 = outs.push(go);
                assert(orig.take(n + 1).drop_last() =~= orig.take(n));
                assert(outs2.drop_last() =~= outs);
                assert(orig.take(n + 1).last() == gt);
                assert(outs2.last() == go);
                match apply_outcome(gt, go) {
                    Some(t2) => {
                        assert(kept@ =~= collect_model(orig.take(n), outs) + seq![t2]);
                    },
                    None => {
                        assert(kept@ =~= collect_model(orig.take(n), outs)
                            + Seq::<PerThread>::empty());
                    },
                }
                assert(collect_model(orig.take(n + 1), outs2) == kept@);
                outs = outs2;
            }
        }
        proof {
            assert(orig.take(outs.len() as int) =~= orig);
        }
        self.threads = kept;
        self.cpus = self.threads.len();
    }

    /// A resize request from the display layer. Each axis is clamped to at
    /// least the minimum resolution (and at most the supported maximum); each
    /// worker is then sent the new resolution with a fresh draw channel. A
    /// worker that cannot be reached aborts the resize: the manager's
    /// recorded dimensions stay as they were, and workers already resized
    /// keep their new buffers (an accepted best-effort inconsistency).
    pub fn resize(&mut self, x: u32, y: u32)
        requires
            old(self).wf(),
        ensures
            final(self).wf(),
            final(self).threads@.len() == old(self).threads@.len(),
            forall|i: int|
                0 <= i < final(self).threads@.len() ==> {
                    &&& (#[trigger] final(self).threads@[i]).span_num == old(
                        self,
                    ).threads@[i].span_num
                    &&& final(self).threads@[i].span_den == old(self).threads@[i].span_den
                },
            (final(self).x == clamp_dim(x as int) && final(self).y == clamp_dim(y as int)) || (
            final(self).x == old(self).x && final(self).y == old(self).y),
            old(self).threads@.len() == 0 ==> final(self).x == clamp_dim(x as int)
                && final(self).y == clamp_dim(y as int),
            exists|k: int|
                #[trigger] resize_outcome(
                    k,
                    old(self).threads@,
                    final(self).threads@,
                    old(self).x as int,
                    old(self).y as int,
                    final(self).x as int,
                    final(self).y as int,
                    x as int,
                    y as int,
                ),
    {
        let mut cx = x;
        let mut cy = y;
        if cx < MIN_RESOLUTION || cy < MIN_RESOLUTION {
            cx = if cx < MIN_RESOLUTION {
                MIN_RESOLUTION
            } else {
                cx
            };
            cy = if cy < MIN_RESOLUTION {
                MIN_RESOLUTION
            } else {
                cy
            };
        }
        if cx > MAX_RESOLUTION as u32 {
            cx = MAX_RESOLUTION as u32;
        }
        if cy > MAX_RESOLUTION as u32 {
            cy = MAX_RESOLUTION as u32;
        }
        if self.threads.len() > 0 {
            let per = cy / (self.cpus as u32);
            proof {
                vstd::arithmetic::div_mod::lemma_div_pos_is_pos(cy as int, self.cpus as int);
                vstd::arithmetic::div_mod::lemma_div_nonincreasing(cy as int, self.cpus as int);
            }
            if per == 0 {
                // More workers than the clamped height has rows: a degenerate
                // per-worker resolution is rejected at this boundary, leaving
                // the recorded dimensions unchanged.
                proof {
                    assert(resize_outcome(
                        0,
                        old(self).threads@,
                        self.threads@,
                        old(self).x as int,
                        old(self).y as int,
                        self.x as int,
                        self.y as int,
                        x as int,
                        y as int,
                    ));
                }
                return ;
            }
            let mut i: usize = 0;
            while i < self.threads.len()
                invariant
                    self.cpus == self.threads@.len(),
                    self.threads@.len() == old(self).threads@.len(),
                    self.threads@.len() <= MAX_RESOLUTION,
                    self.x == old(self).x,
                    self.y == old(self).y,
                    1 <= per <= MAX_RESOLUTION as u32,
                    MIN_RESOLUTION <= cx <= MAX_RESOLUTION as u32,
                    i <= self.threads@.len(),
                    cx == clamp_dim(x as int),
                    cy == clamp_dim(y as int),
                    per == clamp_dim(y as int) / old(self).threads@.len() as int,
                    forall|k: int|
                        0 <= k < self.threads@.len() ==> {
                            &&& (#[trigger] self.threads@[k]).wf()
                            &&& self.threads@[k].span_num == old(self).threads@[k].span_num
                            &&& self.threads@[k].span_den == old(self).threads@[k].span_den
                        },
                    forall|k: int|
                        0 <= k < i ==> is_scaled(
                            old(self).threads@[k].buf,
                            (#[trigger] self.threads@[k]).buf,
                            cx as int,
                            per as int,
                        ),
                    forall|k: int|
                        i <= k < self.threads@.len() ==> #[trigger] self.threads@[k] == old(
                            self,
                        ).threads@[k],
                decreases self.threads@.len() - i,
            {
                let ghost pre = self.threads@;
                let mut t = self.threads.remove(i);
                let ok = t.resize(cx, per);
                self.threads.insert(i, t);
                proof {
                    assert(self.threads@ =~= pre.update(i as int, t));
                }
                if !ok {
                    proof {
                        assert(self.threads@ =~= pre);
                        assert forall|k: int|
                            0 <= k < self.threads@.len() implies same_buffer(
                            (#[trigger] self.threads@[k]).buf,
                            old(self).threads@[k].buf,
                        ) || is_scaled(
                            old(self).threads@[k].buf,
                            self.threads@[k].buf,
                            clamp_dim(x as int),
                            clamp_dim(y as int) / old(self).threads@.len() as int,
                        ) by {
                            if k < i {
                                assert(is_scaled(
                                    old(self).threads@[k].buf,
                                    self.threads@[k].buf,
                                    cx as int,
                                    per as int,
                                ));
                            } else {
                                assert(self.threads@[k] == old(self).threads@[k]);
                            }
                        }
                        assert(resize_outcome(
                            i as int,
                            old(self).threads@,
                            self.threads@,
                            old(self).x as int,
                            old(self).y as int,
                            self.x as int,
                            self.y as int,
                            x as int,
                            y as int,
                        ));
                    }
                    return ;
                }
                i = i + 1;
            }
        }
        self.x = cx;
        self.y = cy;
        proof {
            assert(resize_outcome(
                old(self).threads@.len() as int,
                old(self).threads@,
                self.threads@,
                old(self).x as int,
                old(self).y as int,
                self.x as int,
                self.y as int,
                x as int,
                y as int,
            ));
        }
    }

    /// A copy of every live worker's latest buffer with its vertical span, in
    /// partition order, for the display layer to composite.
    pub fn get_textures(&self) -> (v: Vec<TextureData>)
        requires
            self.wf(),
        ensures
            v@.len() == self.threads@.len(),
            forall|i: int|
                0 <= i < v@.len() ==> {
                    &&& same_buffer((#[trigger] v@[i]).texture, self.threads@[i].buf)
                    &&& v@[i].span_num == self.threads@[i].span_num
                    &&& v@[i].span_den == self.threads@[i].span_den
                },
    {
        let mut v: Vec<TextureData> = Vec::new();
        let mut i: usize = 0;
        while i < self.threads.len()
            invariant
                self.wf(),
                i <= self.threads@.len(),
                v@.len() == i,
                forall|k: int|
                    0 <= k < i ==> {
                        &&& same_buffer((#[trigger] v@[k]).texture, self.threads@[k].buf)
                        &&& v@[k].span_num == self.threads@[k].span_num
                        &&& v@[k].span_den == self.threads@[k].span_den
                    },
            decreases self.threads@.len() - i,
        {
            let t = &self.threads[i];
            v.push(TextureData { texture: t.buf.duplicate(), span_num: t.span_num, span_den: t.span_den });
            i = i + 1;
        }
        v
    }

    /// A restartable iterator over the live workers' buffers, one
    /// (buffer, span) pair per worker in partition order.
    pub fn textures_iter<'a>(&'a self) -> (it: TextureIterator<'a>)
        ensures
            it.pool == self,
            it.pos == 0,
    {
        TextureIterator { pool: self, pos: 0 }
    }
}

/// Workers below `k` carry their old buffer scaled to `w` by `h`; workers
/// from `k` on are exactly as they were: the state a resize leaves behind
/// when its per-worker sends succeeded for the first `k` workers.
pub open spec fn scaled_prefix(k: int, before: Seq<PerThread>, after: Seq<PerThread>, w: int, h: int) -> bool {
    &&& forall|i: int| 0 <= i < k ==> is_scaled(before[i].buf, (#[trigger] after[i]).buf, w, h)
    &&& forall|i: int| k <= i < before.len() ==> #[trigger] after[i] == before[i]
}

/// What a resize leaves behind, witnessed by the number `k` of workers whose
/// command send succeeded: those carry their old buffer scaled to the
/// clamped dimensions (full width, a 1/count share of the height), the rest
/// are untouched; the recorded dimensions update exactly when every send
/// succeeded, and stay as they were when the resize aborted early.
pub open spec fn resize_outcome(
    k: int,
    before: Seq<PerThread>,
    after: Seq<PerThread>,
    x0: int,
    y0: int,
    x1: int,
    y1: int,
    rx: int,
    ry: int,
) -> bool {
    &&& 0 <= k <= before.len()
    &&& scaled_prefix(k, before, after, clamp_dim(rx), clamp_dim(ry) / before.len() as int)
    &&& (k == before.len() ==> x1 == clamp_dim(rx) && y1 == clamp_dim(ry))
    &&& (k < before.len() ==> x1 == x0 && y1 == y0)
}

/// Clamps one requested axis into the supported resolution range.
pub open spec fn clamp_dim(v: int) -> int {
    if v < MIN_RESOLUTION {
        MIN_RESOLUTION as int
    } else if v > MAX_RESOLUTION {
        MAX_RESOLUTION as int
    } else {
        v
    }
}

impl<'a> TextureIterator<'a> {
    /// The next worker's buffer and span, or None once every live worker was
    /// yielded.
    pub fn next(&mut self) -> (r: Option<TextureData>)
        requires
            old(self).pool.wf(),
        ensures
            final(self).pos <= old(self).pool.threads@.len() ==> final(self).pool == old(self).pool,
            old(self).pos < old(self).pool.threads@.len() ==> {
                &&& final(self).pos == old(self).pos + 1
                &&& r is Some
                &&& same_buffer(r.unwrap().texture, old(self).pool.threads@[old(self).pos as int].buf)
                &&& r.unwrap().span_num == old(self).pool.threads@[old(self).pos as int].span_num
                &&& r.unwrap().span_den == old(self).pool.threads@[old(self).pos as int].span_den
            },
            old(self).pos >= old(self).pool.threads@.len() ==> r is None && final(self).pos == old(
                self,
            ).pos,
    {
        if self.pos < self.pool.threads.len() {
            let t = &self.pool.threads[self.pos];
            self.pos = self.pos + 1;
            Some(
                TextureData {
                    texture: t.buf.duplicate(),
                    span_num: t.span_num,
                    span_den: t.span_den,
                },
            )
        } else {
            None
        }
    }
}

} // verus!

