//! The line-delimited JSON primality service: framing of the byte stream
//! into request lines, primality of the requested numbers, the answers
//! owed to each chunk of requests, and the buffering of response lines.

pub mod framing;
pub mod primality;
pub mod requests;

pub use framing::{
    after_chunk, append_line, chunk_read, queue_line, request_lines, ChunkStep, BUF_SIZE, NEWLINE,
};
pub use primality::{is_prime, is_prime_u64, JsonNumber};
pub use requests::{
    answer_requests, is_object_text, is_prime_request, str_eq, ChunkReply, Request,
    MALFORMED_RESPONSE,
};
