//! The tags of leaked tool calls.
//!
//! Every tag comes in two forms: with the `antml:` namespace prefix and bare. The opening `<` of a
//! prefixed tag is written as `\x3c`, so that this file never holds such a tag literally: tools
//! that handle source text may take one for a tag of their own.
use vstd::prelude::*;
use vstd::string::*;

use crate::search;

verus! {

/// The opening wrapper tag, prefixed.
pub const OPEN_FUNCTION_CALLS: &'static str = "\x3cantml:function_calls>";

/// The closing wrapper tag, prefixed.
pub const CLOSE_FUNCTION_CALLS: &'static str = "\x3c/antml:function_calls>";

/// The start of an opening `invoke` tag, prefixed. ` name="..."` and `>` follow it.
pub const OPEN_INVOKE_PREFIX: &'static str = "\x3cantml:invoke";

/// The closing `invoke` tag, prefixed.
pub const CLOSE_INVOKE: &'static str = "\x3c/antml:invoke>";

/// The start of an opening `parameter` tag, prefixed. ` name="..."` and `>` follow it.
pub const OPEN_PARAM_PREFIX: &'static str = "\x3cantml:parameter";

/// The closing `parameter` tag, prefixed.
pub const CLOSE_PARAM: &'static str = "\x3c/antml:parameter>";

/// What starts a region of tool calls: the wrapper or an `invoke`, in both forms.
///
/// A bare `invoke` is enough: neither the wrapper nor the prefix has to be there.
pub const TRIGGER_MARKERS: [&'static str; 4] = [
    "\x3cantml:function_calls",
    "<function_calls",
    "\x3cantml:invoke",
    "<invoke",
];

/// The start of an opening `invoke` tag, in both forms.
pub const INVOKE_OPEN: [&'static str; 2] = ["\x3cantml:invoke", "<invoke"];

/// The closing `invoke` tag, in both forms.
pub const INVOKE_CLOSE: [&'static str; 2] = ["\x3c/antml:invoke>", "</invoke>"];

/// The start of an opening `parameter` tag, in both forms.
pub const PARAM_OPEN: [&'static str; 2] = ["\x3cantml:parameter", "<parameter"];

/// The closing `parameter` tag, in both forms.
pub const PARAM_CLOSE: [&'static str; 2] = ["\x3c/antml:parameter>", "</parameter>"];

/// The texts of the trigger markers.
pub open spec fn triggers() -> Seq<Seq<char>> {
    search::views(TRIGGER_MARKERS@)
}

/// The texts that start an opening `invoke` tag.
pub open spec fn invoke_open() -> Seq<Seq<char>> {
    search::views(INVOKE_OPEN@)
}

/// The texts of the closing `invoke` tag.
pub open spec fn invoke_close() -> Seq<Seq<char>> {
    search::views(INVOKE_CLOSE@)
}

/// The texts that start an opening `parameter` tag.
pub open spec fn param_open() -> Seq<Seq<char>> {
    search::views(PARAM_OPEN@)
}

/// The texts of the closing `parameter` tag.
pub open spec fn param_close() -> Seq<Seq<char>> {
    search::views(PARAM_CLOSE@)
}

} // verus!
