# tracking

Single-target visual tracking, verified with Verus: detection association,
the seeding and stepping of a tracker backend, and the state machine that
takes a target through lock, refresh, loss and age-out.

It is the algorithm alone. It decodes no video and talks to no message bus;
the caller pushes frames and detections in and reads a state out:

```rust
let mut session = TrackingSession::new(SimpleTracker::new(), 640, 480, Config::default());

// Every video frame:
match session.step(frame, detections, now_ns) {
    TrackState::Idle => { /* nothing locked */ }
    TrackState::Locked(held) => { /* held.bbox is this tick's box */ }
    TrackState::Lost(held) => { /* held.bbox is the last known box */ }
}
```

`detections` is `None` when the detector produced no batch this tick, and
`Some` of an empty batch when it ran and saw nothing. The second is an
observation, and drops a candidate that waits for its confirmation.

## Layout

| Module | What it holds |
|---|---|
| `types`, `ratio`, `wide` | boxes, scores, detections, states; exact fractions and wide integers |
| `seed` | which boxes a backend can seed |
| `acquisition` | overlap, the central policy, two-batch confirmation, association |
| `tracker`, `simple_tracker`, `correlation` | the backend seam, the reference backend, rectangles of correlation backends |
| `stage`, `session` | the state machine, and the one-call wrapper around it |
| `rng`, `synthetic` | reproducible generated sequences |
| `footage`, `frames`, `text` | annotated real sequences |
| `metrics`, `harness`, `replay` | scoring, running, and that both are reproducible |

`app/` is the `eval` program: it reads files, calls `ffmpeg`, and prints. It
also wraps OpenCV's CSRT tracker as a backend, which needs `libclang` and an
OpenCV build with the contrib modules.

## Numbers

There is no floating point in the library. A confidence is carried as the bit
pattern of a single-precision number, whose order on the range from zero to
one is the order of the scores. An overlap is an exact fraction of pixels,
compared by cross-multiplication; distances are compared as squares, in
half-pixels. Times are nanoseconds. Thresholds are fractions.

## What is proved

Every function states what it returns. On top of that stand laws, as public
proof functions beside the code they are about. Among them: one batch never
locks, and two that agree do; a loss carries the box of the last lock and
never a made-up one; a stale lock does not outlive a tick; a box that cannot
be seeded never reaches a backend; a target that reappears unchanged within
the search margin is found; the rows of a ground-truth file cannot overflow;
and every evaluation is reproducible to the last number.

## Trusted

Four things are believed rather than proved, each documented where it stands:
`String::push`, the `Debug` form of a text, the decoding of PNG files by the
`image` crate, and the error type of the latter. A backend other than the
reference one is trusted to keep the contract of `Tracker`.

The PNG decoder panics on an indexed image whose palette is cut off within an
entry of three bytes, so such a file is refused before it is decoded. Which
malformed JPEG files the JPEG decoder panics on is decided by their coded data,
so no JPEG file is decoded in the library: `app/` decodes it, and hands the
packed pixels to `FrameStack::push`, which checks their size like any other
frame's.

## Scores

`eval` runs three scenarios of 90 ticks with fixed seeds:

```
scenario                           ticks  success%   mean_iou      ttl    reacq    id_sw
straight_line                         90     98.9%      0.868        1      n/a        0
occlusion_and_sparse_detections       90     72.0%      0.819        3       18        0
distractor_crossing                   90     93.3%      0.759        1      n/a        1
```

The switch in the last one is expected: the policy knows no identity, so a
look-alike that crosses the target can take the lock over for a while.
