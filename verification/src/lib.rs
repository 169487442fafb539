//! A small WebSocket server library: the handshake that upgrades an HTTP
//! connection, and the framing of the messages exchanged afterwards.

pub mod bytes;
pub mod frame;
pub mod handshake;
pub mod httpparser;
pub mod laws;

pub use frame::{
    binary_message_frame, create_frame, create_frames_from_buffer, encode_frame, get_frame_type,
    parse_messages, string_message_frame, try_parse_messages, Frame, Frametype,
};
pub use handshake::{calculate_response_key, handshake_response, switching_protocols_response};
pub use httpparser::{get_header_value, header_lines_are_well_formed};
