//! Queues, buffers and decisions of a media pipeline.

pub mod annexb;
pub mod audio;
pub mod avc_config;
pub mod bits;
pub mod channel;
pub mod clock;
pub mod dmabuf;
pub mod drm_paths;
pub mod encode_run;
pub mod encode_session;
pub mod frame;
pub mod h264_decoder;
pub mod h264_encoder;
pub mod h264_parameter_sets;
pub mod h265_parameters;
pub mod input_buffer;
pub mod input_id;
pub mod jitter_buffer;
pub mod lane_history;
pub mod media;
pub mod opus_head;
pub mod ordered_map;
pub mod output_texture;
pub mod output_writer;
pub mod parameter_set_reading;
pub mod pipeline_options;
pub mod plugin;
pub mod queue_input;
pub mod shared_bytes;
pub mod shared_pts;
pub mod side_channel;
pub mod text;
pub mod time;
pub mod track_offset;
pub mod va_status;
pub mod video_input;
pub mod video_queue;
