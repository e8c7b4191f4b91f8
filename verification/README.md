# humancut

Finds the stretches of a video in which people appear and exports them as
separate clips.

- `src/` is the verified library. It works on fixed-point integers: times
  are whole microseconds, confidences and box coordinates are whole
  millionths (of `1.0`, and of a pixel). Text of fixed-point values rounds
  the exact value, exact halves to even. Rust's float formatting does the
  same on the binary value of an `f64`, so the two can differ on a half
  that an `f64` cannot hold exactly (`0.0125` s is written `0.012` here).
  Sums and ratios that leave the `i128` range are held at its ends; the
  compression ratio is kept in millionths rounded to odd, so that its
  two-decimal percentage is the exact ratio rounded once.
  - `segment`: segments, the scan that turns per-frame detections into
    segments, and the batch with its statistics and summary text.
  - `merger`: joining segments over short gaps and dropping short ones.
  - `detection`: per-frame results, turning the detector's raw output into
    boxes, sorting by score, non-maximum suppression, the frame verdict.
  - `process`: the whole analysis of one video's detections and whether
    it has clips to export; model file names, download addresses and
    whether to download; file extensions.
  - `exporter`: clip names and the ffmpeg arguments that cut a clip.
  - `reader`: which frames the detector examines; frame sizes; the video
    stream's frame rate, size and duration texts from the ffprobe report
    (decoded with `serde_json`).
  - `config`: parameters and their defaults.
  - `text`: decimal and fixed-point text.
- `app/` is the command-line program around it: argument handling, the YAML
  configuration file, downloads, the ffprobe/ffmpeg processes, running the
  YOLO model, and the conversions between floating-point values and the
  library's integers.
- `tests/` exercises the library on concrete values.
