//! Tunable limits of a multiplexor.

use vstd::prelude::*;

verus! {

/// Number of bytes that the header puts in front of a frame's payload.
pub const FRAME_HEADER_LEN: usize = 9;

/// Number of bytes that a frame counts beyond its payload when it is held
/// against `max_frame_size`: the header and two bytes of headroom.
pub const FRAME_OVERHEAD: usize = 11;

/// Limits and queue sizes of one multiplexor.
#[derive(Copy, Clone, Debug)]
pub struct Config {
    /// A frame whose payload and overhead exceed this is dropped on receipt.
    pub max_frame_size: usize,
    /// Largest payload that a write puts into one frame. It should be at
    /// least 512 bytes smaller than `max_frame_size`.
    pub buf_size: usize,
    /// How many frames the outbound queue takes from writers.
    pub max_queued_frames: usize,
    /// How many accepted streams a listener queues.
    pub accept_queue_len: usize,
    /// A tag for diagnostics.
    pub identifier: &'static str,
}

impl Default for Config {
    /// 4 MiB frames, 1 MiB payloads, 256 queued frames, 16 pending streams.
    fn default() -> (config: Self)
        ensures
            config.max_frame_size == 4 * 1024 * 1024,
            config.buf_size == 1024 * 1024,
            config.max_queued_frames == 256,
            config.accept_queue_len == 16,
            config.identifier@ == Seq::<char>::empty(),
            config.is_valid(),
    {
        proof {
            reveal_strlit("");
        }
        Self {
            max_frame_size: 4 * 1024 * 1024,
            buf_size: 1024 * 1024,
            max_queued_frames: 256,
            accept_queue_len: 16,
            identifier: "",
        }
    }
}

impl Config {
    /// A configuration is usable when a full payload and the frame overhead
    /// fit in one frame and no chunk or queue has size zero.
    pub open spec fn is_valid(self) -> bool {
        &&& 1 <= self.buf_size
        &&& self.buf_size + FRAME_OVERHEAD <= self.max_frame_size
        &&& 1 <= self.max_queued_frames
        &&& 1 <= self.accept_queue_len
    }

    /// Tests `is_valid` at run time.
    pub fn validate(&self) -> (ok: bool)
        ensures
            ok == self.is_valid(),
    {
        self.buf_size >= 1 && self.max_frame_size >= FRAME_OVERHEAD && self.buf_size
            <= self.max_frame_size - FRAME_OVERHEAD && self.max_queued_frames >= 1
            && self.accept_queue_len >= 1
    }

    /// The same configuration under another diagnostic tag.
    #[must_use]
    pub fn with_identifier(self, identifier: &'static str) -> (config: Self)
        ensures
            config == (Config { identifier, ..self }),
    {
        let mut config = self;
        config.identifier = identifier;
        config
    }
}

} // verus!
