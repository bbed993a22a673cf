//! Where the debug bundle and its trace files are written.
//!
//! Paths are handled as text; the path arithmetic itself is that of
//! `std::path`.

use vstd::prelude::*;

verus! {

/// The path that `Path::with_extension` gives for a path and an extension.
pub uninterp spec fn path_with_extension(path: Seq<char>, extension: Seq<char>) -> Seq<char>;

/// The path that `Path::join` gives for a base path and a path adjoined to it.
pub uninterp spec fn path_joined(base: Seq<char>, adjoined: Seq<char>) -> Seq<char>;

/// Trusted call of `std::path::Path::with_extension`.
///
/// The path is built from the text, its extension set or replaced as std
/// documents it, and turned back into text; both inputs are UTF-8, so no
/// character is lost on the way back. The contract only names the result:
/// it is a function of the two texts under the path rules of the platform
/// the crate is built for. `Path::with_extension` panics when the extension
/// holds a path separator, so no extension with a slash or a backslash is accepted.
#[verifier::external_body]
fn with_extension(path: &str, extension: &str) -> (p: String)
    requires
        !extension@.contains('/'),
        !extension@.contains('\\'),
    ensures
        p@ == path_with_extension(path@, extension@),
{
    std::path::Path::new(path).with_extension(extension).to_string_lossy().into_owned()
}

/// Trusted call of `std::path::Path::join`.
///
/// The base path is built from the text, the second path adjoined as std
/// documents it, and the result turned back into text; both inputs are
/// UTF-8, so no character is lost on the way back. The contract only names
/// the result: it is a function of the two texts under the path rules of
/// the platform the crate is built for.
#[verifier::external_body]
fn join_path(base: &str, adjoined: &str) -> (p: String)
    ensures
        p@ == path_joined(base@, adjoined@),
{
    std::path::Path::new(base).join(adjoined).to_string_lossy().into_owned()
}

/// The default debug directory: the output path with the extension `debug`.
pub fn default_debug_dir(output: &str) -> (dir: String)
    ensures
        dir@ == path_with_extension(output@, "debug"@),
{
    proof {
        reveal_strlit("debug");
    }
    with_extension(output, "debug")
}

/// The frame traces of rendered regions: `diff/rendered-region-frame-traces.jsonl`
/// inside the debug directory.
pub fn rendered_region_frame_traces_path(debug_dir: &str) -> (path: String)
    ensures
        path@ == path_joined(debug_dir@, "diff/rendered-region-frame-traces.jsonl"@),
{
    join_path(debug_dir, "diff/rendered-region-frame-traces.jsonl")
}

/// The pipeline events: `diff/pipeline-events.jsonl` inside the debug directory.
pub fn pipeline_events_path(debug_dir: &str) -> (path: String)
    ensures
        path@ == path_joined(debug_dir@, "diff/pipeline-events.jsonl"@),
{
    join_path(debug_dir, "diff/pipeline-events.jsonl")
}


/// The command-line options that a debug bundle records; paths as text.
#[derive(Clone, Debug)]
pub struct DebugArgs {
    pub old_or_file: String,
    pub new: Option<String>,
    pub revision: Option<String>,
    pub output: String,
    pub log_modifications: Option<String>,
    pub compact_substitutions: bool,
    pub debug: bool,
    pub debug_trace: bool,
}

/// A trace file of the debug bundle: where it is, its format name, and
/// whether it was written.
#[derive(Clone, Debug)]
pub struct DebugTraceFile {
    pub path: String,
    pub format: &'static str,
    pub present: bool,
}

/// The trace files of a debug bundle once its writers are flushed: the
/// pipeline events, always written, and the rendered-region frame traces,
/// written when a rendered region was traced.
pub fn trace_files(debug_dir: &str, frame_trace_created: bool) -> (files: Vec<DebugTraceFile>)
    ensures
        files@.len() == 2,
        files@[0].path@ == path_joined(debug_dir@, "diff/pipeline-events.jsonl"@),
        files@[0].format@ == "typst-diff-pipeline-events"@,
        files@[0].present,
        files@[1].path@ == path_joined(debug_dir@, "diff/rendered-region-frame-traces.jsonl"@),
        files@[1].format@ == "typst-diff-rendered-region-frame-trace"@,
        files@[1].present == frame_trace_created,
{
    let mut files: Vec<DebugTraceFile> = Vec::new();
    files.push(DebugTraceFile {
        path: pipeline_events_path(debug_dir),
        format: "typst-diff-pipeline-events",
        present: true,
    });
    files.push(DebugTraceFile {
        path: rendered_region_frame_traces_path(debug_dir),
        format: "typst-diff-rendered-region-frame-trace",
        present: frame_trace_created,
    });
    files
}

} // verus!
