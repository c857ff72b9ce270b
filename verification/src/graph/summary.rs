//! What the graph tool prints after `build` and `validate`.

use vstd::prelude::*;

use crate::foreign::{json_string, json_string_spec};
use crate::graph::bundle::Summary;
use crate::graph::error::{GraphError, GraphErrorView};
use crate::text::{append_str, chars_of, decimal, decimal_spec, str_eq, string_of};

verus! {

/// One working `build` invocation.
pub fn build_example() -> (s: &'static str)
    ensures
        s@ == "wh-graph build --corpus ./corpus --out ./bundle"@,
{
    "wh-graph build --corpus ./corpus --out ./bundle"
}

/// One working `validate` invocation.
pub fn validate_example() -> (s: &'static str)
    ensures
        s@ == "wh-graph validate --bundle ./bundle"@,
{
    "wh-graph validate --bundle ./bundle"
}

/// The summary as text lines.
pub open spec fn summary_text(s: Summary) -> Seq<char> {
    "bundle: "@ + s.bundle@ + "\nformat_version: "@ + decimal_spec(s.format_version as nat)
        + "\nnodes: "@ + decimal_spec(s.nodes as nat) + "\nedges: "@ + decimal_spec(s.edges as nat)
        + "\npassages: "@ + decimal_spec(s.passages as nat) + "\ncorpus_fingerprint: "@
        + s.corpus_fingerprint@ + "\n"@
}

/// The summary as one compact JSON object and a newline.
pub open spec fn summary_json(s: Summary) -> Seq<char> {
    "{\"bundle\":"@ + json_string_spec(s.bundle@) + ",\"format_version\":"@ + decimal_spec(
        s.format_version as nat,
    ) + ",\"nodes\":"@ + decimal_spec(s.nodes as nat) + ",\"edges\":"@ + decimal_spec(
        s.edges as nat,
    ) + ",\"passages\":"@ + decimal_spec(s.passages as nat) + ",\"corpus_fingerprint\":"@
        + json_string_spec(s.corpus_fingerprint@) + "}\n"@
}

/// The usage failure for a bad `--output`, with a working command.
pub open spec fn bad_output_message(example: Seq<char>) -> Seq<char> {
    "bad flag: --output\n"@ + example
}

/// `--output` is `text` or `json`.
pub open spec fn output_ok(output: Seq<char>) -> bool {
    output == "text"@ || output == "json"@
}

fn bad_output(example: &str) -> (e: GraphError)
    ensures
        e@ == GraphErrorView::Usage(bad_output_message(example@)),
{
    let mut m = chars_of("bad flag: --output\n");
    append_str(&mut m, example);
    GraphError::Usage(string_of(m.as_slice()))
}

/// Renders the summary as `text` or `json`; any other `output` is a usage
/// failure that shows `example`.
pub fn render_summary(summary: &Summary, output: &str, example: &str) -> (r: Result<String, GraphError>)
    ensures
        output@ == "text"@ ==> (r matches Ok(t) && t@ == summary_text(*summary)),
        output@ == "json"@ ==> (r matches Ok(t) && t@ == summary_json(*summary)),
        !output_ok(output@) ==> (r matches Err(e) && e@ == GraphErrorView::Usage(
            bad_output_message(example@),
        )),
{
    proof {
        reveal_strlit("text");
        reveal_strlit("json");
        assert("json"@ != "text"@) by {
            assert("json"@[0] != "text"@[0]);
        }
    }
    if str_eq(output, "text") {
        let mut t = chars_of("bundle: ");
        append_str(&mut t, summary.bundle.as_str());
        append_str(&mut t, "\nformat_version: ");
        append_str(&mut t, decimal(summary.format_version as usize).as_str());
        append_str(&mut t, "\nnodes: ");
        append_str(&mut t, decimal(summary.nodes).as_str());
        append_str(&mut t, "\nedges: ");
        append_str(&mut t, decimal(summary.edges).as_str());
        append_str(&mut t, "\npassages: ");
        append_str(&mut t, decimal(summary.passages).as_str());
        append_str(&mut t, "\ncorpus_fingerprint: ");
        append_str(&mut t, summary.corpus_fingerprint.as_str());
        append_str(&mut t, "\n");
        Ok(string_of(t.as_slice()))
    } else if str_eq(output, "json") {
        let mut t = chars_of("{\"bundle\":");
        append_str(&mut t, json_string(summary.bundle.as_str()).as_str());
        append_str(&mut t, ",\"format_version\":");
        append_str(&mut t, decimal(summary.format_version as usize).as_str());
        append_str(&mut t, ",\"nodes\":");
        append_str(&mut t, decimal(summary.nodes).as_str());
        append_str(&mut t, ",\"edges\":");
        append_str(&mut t, decimal(summary.edges).as_str());
        append_str(&mut t, ",\"passages\":");
        append_str(&mut t, decimal(summary.passages).as_str());
        append_str(&mut t, ",\"corpus_fingerprint\":");
        append_str(&mut t, json_string(summary.corpus_fingerprint.as_str()).as_str());
        append_str(&mut t, "}\n");
        assert(t@ == summary_json(*summary));
        Ok(string_of(t.as_slice()))
    } else {
        Err(bad_output(example))
    }
}

/// Accepts `text` and `json` for `--output`; anything else is a usage failure
/// that shows `example`.
pub fn require_output(output: &str, example: &str) -> (r: Result<(), GraphError>)
    ensures
        r is Ok <==> output_ok(output@),
        r matches Err(e) ==> e@ == GraphErrorView::Usage(bad_output_message(example@)),
{
    if str_eq(output, "text") || str_eq(output, "json") {
        Ok(())
    } else {
        Err(bad_output(example))
    }
}

} // verus!
