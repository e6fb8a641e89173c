# latency_tool

Measures the round-trip latency of an audio path: a probe sound is played, the input is recorded,
and the probe is looked for in the recording. A calibration determines the latency of the system
itself, which later measurements are reduced by.

- `src/` is the library, verified with Verus. It holds the state shared by the audio callbacks, the
  detection loop and the window; what the callbacks do to it; the course of a detection; the
  statistics; the course of a calibration; the reading of the probe's recording; and the
  choice of devices and files.
- `tests/` runs the library on concrete values.
- `app/` is the program around it: devices and streams, the window, files, and the floating-point
  signal processing.

Floating-point numbers pass through the library as their IEEE 754 encodings (`float_bits`). The
library compares them and moves them about; arithmetic on them is done in `app/`.

`assets/probe3.wav`, next to where the program is started, holds the probe.
