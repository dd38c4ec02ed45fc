//! Recovering tool calls that leaked into text.
//!
//! A model writes its tool calls as tagged text: a `function_calls` wrapper around `invoke`
//! elements, each with `parameter` elements. A service in front of the model turns that text into
//! structured tool calls. Where it fails to, the tagged text arrives as ordinary text, and the turn
//! ends without a tool call. This crate turns such text back into tool calls.
//!
//! - [`parse`] reads the calls from a text: [`parse_function_calls`].
//! - [`stream`] guards text that arrives in pieces: [`AntmlStreamGuard`] and [`scan_for_sentinel`].
//! - [`message`] rewrites whole messages: [`rewrite_anthropic_message`].
//! - [`events`] and [`ids`] make the events and identifiers of recovered calls.
//! - [`json`] and [`equality`] hold JSON values, and [`markers`] the tags.
//! - [`offsets`], [`search`] and [`trim`] are about positions in text.
//! - [`text_laws`], [`element_laws`], [`json_laws`], [`event_laws`] and [`message_laws`] state what
//!   every result has to satisfy, in terms of the texts and values themselves.
//! - [`stream_laws`] and [`parse_laws`] also state how several calls and texts relate.
//!
//! Tags come with a namespace prefix or without, and the wrapper is optional.
pub mod element_laws;
pub mod equality;
pub mod event_laws;
pub mod events;
pub mod ids;
pub mod json;
pub mod json_laws;
pub mod markers;
pub mod message;
pub mod message_laws;
pub mod offsets;
pub mod parse;
pub mod parse_laws;
pub mod search;
pub mod stream;
pub mod stream_laws;
pub mod text_laws;
pub mod trim;

pub use crate::events::standalone_text_sse_events;
pub use crate::events::tool_use_sse_events;
pub use crate::ids::synthetic_tool_id;
pub use crate::json::Json;
pub use crate::message::rewrite_anthropic_message;
pub use crate::message::rewrite_anthropic_value;
pub use crate::parse::parse_function_calls;
pub use crate::parse::AntmlToolCall;
pub use crate::parse::ParsedAntml;
pub use crate::stream::scan_for_sentinel;
pub use crate::stream::AntmlStreamGuard;
pub use crate::stream::SentinelScan;
