# smelter_media

The decisions of a live media pipeline, verified with Verus.

`src/` is the library. Verus checks every function in it against its contract; the few wrappers round
calls into other crates are trusted, and say so:

- `video_input`, `video_queue`, `queue_input`, `side_channel`, `lane_history`, `track_offset`: when frames of an
  input are queued, shown, dropped and delivered to others.
- `input_buffer`, `jitter_buffer`, `ordered_map`: how long media is held back, and in which order
  packets leave.
- `h264_encoder`, `encode_run`, `encode_session`, `h264_parameter_sets`, `bits`, `avc_config`, `annexb`,
  `h265_parameters`: what a hardware encoder is told, and the parameter sets of its streams.
- `h264_decoder`, `dmabuf`, `output_texture`, `drm_paths`, `va_status`: pictures that are shared
  between devices.
- `audio`, `opus_head`, `output_writer`, `plugin`, `pipeline_options`: the rest of the pipeline.
- `time`, `text`, `media`, `frame`, `input_id`, `shared_pts`: the values that all of these speak of.
- `channel`, `clock`, `shared_bytes`: what is taken from `crossbeam_channel`, the system clock and
  `bytes`. Other calls into outside crates stand where they are used.

Proof functions whose names start with `lemma_` and that are public state what holds across several
functions.

`app/` is ordinary Rust around the library: threads, locks, devices and services. VA-API and Opus
need libraries of the system; their parts are compiled in with `--cfg vaapi` and `--cfg libopus`.
The script plugin is built for WebAssembly.

`tests/` runs the library on concrete values.
