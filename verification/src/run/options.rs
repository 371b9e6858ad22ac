//! What a run is asked to do, and which requests are refused.

use vstd::prelude::*;
use vstd::string::StringExecFns;

use crate::format::OutputFormat;
use crate::path::{is_same_path, same_path};
use crate::record::SchemaMode;
use crate::sampler::options::SamplerOptions;

verus! {

/// Options controlling a run.
#[derive(Debug, Clone)]
pub struct RunOptions {
    /// Sampling interval in nanoseconds.
    pub interval_nanos: u64,
    /// Output file path; written in `format`.
    pub output_path: String,
    /// Output file format.
    pub format: OutputFormat,
    /// Write a one-line summary to standard error after the child exits, also where standard
    /// error is no terminal.
    pub force_summary: bool,
    /// Where to write one trace row per tick; `None` writes no trace.
    pub trace_path: Option<String>,
    /// Where to write the aggregate record as a Markdown table as well; `None` writes none.
    pub markdown_path: Option<String>,
    /// Which columns the aggregate writers show. Both modes give the same ones today.
    pub schema_mode: SchemaMode,
}

/// Why a request is refused.
#[derive(Debug, Clone, Copy, PartialEq, Eq, Structural)]
pub enum ErrorKind {
    /// The options contradict each other.
    InvalidInput,
}

/// A refused request.
#[derive(Debug, Clone)]
pub struct RunError {
    kind: ErrorKind,
    message: String,
}

impl RunError {
    /// Why the request is refused.
    pub closed spec fn reason(self) -> ErrorKind {
        self.kind
    }

    /// What the user is told.
    pub closed spec fn text(self) -> Seq<char> {
        self.message@
    }

    /// Why the request is refused.
    pub fn kind(&self) -> (r: ErrorKind)
        ensures
            r == self.reason(),
    {
        self.kind
    }

    /// What the user is told.
    pub fn message(&self) -> (r: &str)
        ensures
            r@ == self.text(),
    {
        self.message.as_str()
    }
}

/// An optional path under its flag.
pub open spec fn flagged(flag: Seq<char>, path: Option<String>) -> Seq<(Seq<char>, Seq<char>)> {
    match path {
        Some(p) => seq![(flag, p@)],
        None => Seq::empty(),
    }
}

impl RunOptions {
    /// The files that the run will write, each with the flag that names it.
    pub open spec fn outputs(self) -> Seq<(Seq<char>, Seq<char>)> {
        seq![("--out"@, self.output_path@)] + flagged("--trace"@, self.trace_path) + flagged(
            "--export-markdown"@,
            self.markdown_path,
        )
    }

    /// Options for the sampler of this run.
    pub fn sampler_options(&self) -> (o: SamplerOptions)
        ensures
            o.interval_nanos == self.interval_nanos,
            o.trace_path is Some <==> self.trace_path is Some,
            self.trace_path matches Some(p) ==> o.trace_path->0@ == p@,
    {
        SamplerOptions {
            interval_nanos: self.interval_nanos,
            trace_path: match &self.trace_path {
                Some(path) => Some(path.as_str().to_owned()),
                None => None,
            },
        }
    }
}

/// Output `i` and the later output `j` go to the same path.
pub open spec fn collide(outputs: Seq<(Seq<char>, Seq<char>)>, i: int, j: int) -> bool {
    0 <= i < j < outputs.len() && is_same_path(outputs[i].1, outputs[j].1)
}

/// Every output goes to a path of its own.
pub open spec fn all_distinct(outputs: Seq<(Seq<char>, Seq<char>)>) -> bool {
    forall|i: int, j: int| !#[trigger] collide(outputs, i, j)
}

/// The pair `i`, `j` comes before the pair `k`, `l`.
pub open spec fn earlier(i: int, j: int, k: int, l: int) -> bool {
    i < k || (i == k && j < l)
}

/// No pair of outputs before `k`, `l` collides.
pub open spec fn none_before(outputs: Seq<(Seq<char>, Seq<char>)>, k: int, l: int) -> bool {
    forall|i: int, j: int| #[trigger] collide(outputs, i, j) ==> !earlier(i, j, k, l)
}

/// What the user is told of two flags that name one path.
pub open spec fn collision_text(a: Seq<char>, b: Seq<char>, path: Seq<char>) -> Seq<char> {
    a + " and "@ + b + " point to the same path ("@ + path
        + "); each output flag must use a distinct path"@
}

/// The error for two flags that name one path.
fn collision(flag_a: &str, flag_b: &str, path: &str) -> (e: RunError)
    ensures
        e.reason() == ErrorKind::InvalidInput,
        e.text() == collision_text(flag_a@, flag_b@, path@),
{
    let mut message: String = flag_a.to_owned();
    message.append(" and ");
    message.append(flag_b);
    message.append(" point to the same path (");
    message.append(path);
    message.append("); each output flag must use a distinct path");
    RunError { kind: ErrorKind::InvalidInput, message }
}

/// Refuses any two output flags that name the same path: the later writer would silently
/// clobber the earlier one. Of several such pairs the first is reported, by its first flag and
/// then by its second.
pub fn validate_output_paths(options: &RunOptions) -> (r: Result<(), RunError>)
    ensures
        r is Ok <==> all_distinct(options.outputs()),
        r matches Err(e) ==> exists|i: int, j: int| #[trigger]
            collide(options.outputs(), i, j) && none_before(options.outputs(), i, j) && e.reason()
                == ErrorKind::InvalidInput && e.text() == collision_text(
                options.outputs()[i].0,
                options.outputs()[j].0,
                options.outputs()[i].1,
            ),
{
    let ghost outputs: Seq<(Seq<char>, Seq<char>)> = options.outputs();
    let mut flags: Vec<&str> = Vec::with_capacity(3);
    let mut paths: Vec<&str> = Vec::with_capacity(3);
    flags.push("--out");
    paths.push(options.output_path.as_str());
    if let Some(path) = &options.trace_path {
        flags.push("--trace");
        paths.push(path.as_str());
    }
    if let Some(path) = &options.markdown_path {
        flags.push("--export-markdown");
        paths.push(path.as_str());
    }
    let n: usize = paths.len();
    let mut i: usize = 0;
    while i < n
        invariant
            i <= n == outputs.len() == flags@.len() == paths@.len(),
            outputs == options.outputs(),
            forall|k: int|
                0 <= k < n ==> #[trigger] outputs[k] == (flags@[k]@, paths@[k]@),
            none_before(outputs, i as int, 0),
        decreases n - i,
    {
        let mut j: usize = i + 1;
        assert(none_before(outputs, i as int, j as int)) by {
            assert forall|a: int, b: int| #[trigger] collide(outputs, a, b) implies !earlier(
                a,
                b,
                i as int,
                j as int,
            ) by {
                assert(!earlier(a, b, i as int, 0));
            }
        }
        while j < n
            invariant
                i < j <= n == outputs.len() == flags@.len() == paths@.len(),
                outputs == options.outputs(),
                forall|k: int|
                    0 <= k < n ==> #[trigger] outputs[k] == (flags@[k]@, paths@[k]@),
                none_before(outputs, i as int, j as int),
            decreases n - j,
        {
            assert(outputs[i as int] == (flags@[i as int]@, paths@[i as int]@));
            assert(outputs[j as int] == (flags@[j as int]@, paths@[j as int]@));
            if same_path(paths[i], paths[j]) {
                assert(collide(outputs, i as int, j as int));
                return Err(collision(flags[i], flags[j], paths[i]));
            }
            assert(none_before(outputs, i as int, j + 1)) by {
                assert forall|a: int, b: int| #[trigger] collide(outputs, a, b) implies !earlier(
                    a,
                    b,
                    i as int,
                    j + 1,
                ) by {
                    assert(!earlier(a, b, i as int, j as int));
                }
            }
            j = j + 1;
        }
        assert(none_before(outputs, i + 1, 0)) by {
            assert forall|a: int, b: int| #[trigger] collide(outputs, a, b) implies !earlier(
                a,
                b,
                i + 1,
                0,
            ) by {
                assert(!earlier(a, b, i as int, n as int));
            }
        }
        i = i + 1;
    }
    assert forall|a: int, b: int| !#[trigger] collide(outputs, a, b) by {
        if collide(outputs, a, b) {
            assert(!earlier(a, b, n as int, 0));
        }
    }
    Ok(())
}

} // verus!
