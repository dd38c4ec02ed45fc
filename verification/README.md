# antml_fallback

A library that turns tool calls which leaked into text back into tool calls. Its behaviour is stated
in contracts and proved by Verus.

A model writes its tool calls as tagged text. Where the service in front of it fails to turn that
text into structured calls, it arrives as ordinary text. This library

- parses such text (`parse_function_calls`),
- guards text that arrives in pieces, so that no tag is missed where a piece ends inside it
  (`AntmlStreamGuard`, `scan_for_sentinel`),
- rewrites whole messages (`rewrite_anthropic_message`, `rewrite_anthropic_value`),
- and makes the events that announce the recovered calls, or text that held none
  (`tool_use_sse_events`, `standalone_text_sse_events`).

## Layout

- `src/parse.rs`, `src/stream.rs`, `src/message.rs`, `src/events.rs`, `src/ids.rs`: the functions
  above, each with the specification of its result.
- `src/json.rs`, `src/equality.rs`: JSON values. Reading and writing JSON text is the work of
  `serde_json`; the contracts name its results, and the doc comments say what is taken on trust.
- `src/offsets.rs`, `src/search.rs`, `src/trim.rs`, `src/markers.rs`: text, positions in it, and
  tags.
- `src/stream_laws.rs`, `src/parse_laws.rs`, `src/message_laws.rs`: what holds of the library as a
  whole. Calls that were written are recovered, also from a stream and where the text breaks off; it
  makes no difference in what pieces text arrives; no text is lost; rewriting twice changes nothing.
- `tests/`: examples.

A caller that is not verified has to meet the `requires` of the functions it calls: content indices
must not pass `u32::MAX`, and a sentinel that is not ASCII must not be cut inside a character.
