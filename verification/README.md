# launch-monitor-research

The computational core of a stereo golf launch monitor, written in Verus and
proved against its contracts, with the floating-point vision code and the
command-line tools around it in ordinary Rust.

## Layout

- `src/` — the verified library:
  - `frame` — grayscale frame buffers, background subtraction, negatives,
    cropping;
  - `ball_detector` — peak-and-centroid ball detection with a temporal
    minimum background, kept as exact integer moments;
  - `pipeline` — pairing the two cameras' detections and selecting the
    frames of the ball's flight (size outliers, static start, longest run);
  - `triangulation` — which launch fit runs and which frames a refit keeps;
  - `calibration` — contrast range, FAST corner candidates of the
    calibration board (through imageproc and image), their clustering,
    the choice of corners to fit, and marking corners with crosses;
  - `spin` — clustering of spin feature pixels;
  - `frame_source::shared_memory` — decoding of the simulator's shared
    header and frame headers, command encoding, the ring buffer's slots and
    the polling cursor, and row flipping of frames;
  - `report` — accuracy tiers.
- `tests/` — tests of the library's public functions.
- `app/` — the program: dataset loading, shared-memory mapping, the
  floating-point triangulation, spin search and grid fitting, debug images,
  and the `shots`, `sweep`, `spin-sweep` and `rig` commands.
