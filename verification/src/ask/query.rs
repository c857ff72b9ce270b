//! One question, end to end: retrieval, expansion, the prompt, the answer
//! and its citations, and how the answer is printed.

use vstd::prelude::*;

use crate::ask::bundle::LoadedBundle;
use crate::ask::cite::{Citation, cited_ids, citation_matches, citations};
use crate::ask::error::{AskError, AskErrorView};
use crate::ask::expand::{ContextNodes, context_spec, expand, seeds_upto};
use crate::ask::model::ChatModel;
use crate::ask::prompt::{
    PieceView, build, context_pieces, context_search, is_candidate, render_spec, search_done, search_prompt,
    seed_count_of,
};
use crate::ask::retrieve::{label_rank, label_positions};
use crate::ask::settings::{DEFAULT_TOP_K, query_top_k};
use crate::foreign::{json_string, json_string_spec};
use crate::graph::attrs::strings_view;
use crate::graph::model::opt_view;
use crate::text::{append_str, chars_of, copy_str, join, str_eq, string_of};

verus! {

/// One working `query` invocation, printed with usage errors.
pub const QUERY_EXAMPLE: &'static str = "wh-ask query --bundle ./bundle --chat-model ./models/chat.gguf --question \"Which example units are in Example Faction?\"";

/// How the seed passages were found.
#[derive(Clone, Copy, Debug, PartialEq, Eq)]
pub enum Retrieval {
    Embedding,
    Label,
}

impl Retrieval {
    /// `embedding` or `label`.
    pub fn as_str(self) -> (s: &'static str)
        ensures
            s@ == retrieval_name(self),
    {
        match self {
            Retrieval::Embedding => "embedding",
            Retrieval::Label => "label",
        }
    }
}

/// The name of a retrieval.
pub open spec fn retrieval_name(r: Retrieval) -> Seq<char> {
    match r {
        Retrieval::Embedding => "embedding"@,
        Retrieval::Label => "label"@,
    }
}

/// An answer, how its seeds were found, and what it cites.
#[derive(Debug)]
pub struct QueryResponse {
    pub answer: String,
    pub retrieval: Retrieval,
    pub citations: Vec<Citation>,
}

/// One question against one bundle.
pub struct QueryRequest<'a> {
    pub bundle_dir: &'a str,
    pub question: &'a str,
    pub top_k: usize,
    pub context_reserve: usize,
    pub config_dir: &'a str,
}

/// `--top-k must be from 1 to 32` and the example.
pub open spec fn top_k_message() -> Seq<char> {
    "--top-k must be from 1 to 32\n"@ + QUERY_EXAMPLE@
}

/// Refuses a `top_k` outside 1..=32.
pub fn check_top_k(top_k: usize) -> (r: Result<(), AskError>)
    ensures
        r is Ok <==> 1 <= top_k <= 32,
        r matches Err(e) ==> e@ == AskErrorView::Usage(top_k_message()),
{
    if !(1 <= top_k && top_k <= 32) {
        let mut m = chars_of("--top-k must be from 1 to 32\n");
        append_str(&mut m, QUERY_EXAMPLE);
        return Err(AskError::Usage(string_of(m.as_slice())));
    }
    Ok(())
}

/// Checks the flags of a command-line query, `--output` first, and gives
/// the `top_k` to use: the default when none is given, else the given value
/// when it is from 1 to 32.
pub fn query_flags(output: &str, top_k: Option<i64>) -> (r: Result<usize, AskError>)
    ensures
        !(output@ == "text"@ || output@ == "json"@) ==> (r matches Err(e) && e@ == AskErrorView::Usage(
            bad_output_message(),
        )),
        (output@ == "text"@ || output@ == "json"@) ==> match top_k {
            None => r matches Ok(k) && k == DEFAULT_TOP_K,
            Some(v) => if 1 <= v <= 32 {
                r matches Ok(k) && k == v
            } else {
                r matches Err(e) && e@ == AskErrorView::Usage(top_k_message())
            },
        },
{
    if !(str_eq(output, "text") || str_eq(output, "json")) {
        let mut m = chars_of("bad flag: --output\n");
        append_str(&mut m, QUERY_EXAMPLE);
        return Err(AskError::Usage(string_of(m.as_slice())));
    }
    match query_top_k(top_k) {
        Some(k) => Ok(k),
        None => {
            let mut m = chars_of("--top-k must be from 1 to 32\n");
            append_str(&mut m, QUERY_EXAMPLE);
            Err(AskError::Usage(string_of(m.as_slice())))
        },
    }
}

/// The seed passage positions of a query: the embedding ranking when there
/// is one, else label search.
pub open spec fn seed_positions(b: LoadedBundle, question: Seq<char>, top_k: usize, embedded: Option<Vec<usize>>) -> Seq<usize> {
    match embedded {
        Some(v) => v@,
        None => label_positions(b, question, top_k as int),
    }
}

/// How the seeds of a query are found: by embedding when a ranking is
/// given, by label search otherwise.
pub open spec fn retrieval_of(embedded: Option<Vec<usize>>) -> Retrieval {
    if embedded is Some {
        Retrieval::Embedding
    } else {
        Retrieval::Label
    }
}

/// The seed node ids of a query.
pub open spec fn query_seeds(b: LoadedBundle, question: Seq<char>, top_k: usize, embedded: Option<Vec<usize>>) -> Seq<Seq<char>> {
    seeds_upto(
        b,
        seed_positions(b, question, top_k, embedded),
        seed_positions(b, question, top_k, embedded).len() as int,
    )
}

/// A query ready for the chat model: the context its seeds expanded to, the
/// prompt built from that context, and how the seeds were found.
pub struct PreparedQuery {
    pub context: ContextNodes,
    pub prompt: String,
    pub retrieval: Retrieval,
}

/// Everything of a query before the chat model answers: `top_k` is checked,
/// the seeds are found and expanded, and the prompt is built, the chat
/// model's tokenizer deciding how far it is shrunk. A `top_k` outside
/// 1..=32 is refused first; a failure of the tokenizer is passed on.
pub fn prepare_query<C: ChatModel + ?Sized>(
    request: &QueryRequest,
    bundle: &LoadedBundle,
    chat: &mut C,
    embedded: Option<Vec<usize>>,
) -> (r: Result<PreparedQuery, AskError>)
    ensures
        !(1 <= request.top_k <= 32) ==> (r matches Err(e) && e@ == AskErrorView::Usage(top_k_message())),
        r matches Ok(q) ==> {
            let seeds = query_seeds(*bundle, request.question@, request.top_k, embedded);
            &&& 1 <= request.top_k <= 32
            &&& q.retrieval == retrieval_of(embedded)
            &&& strings_view(q.context.seeds@) == seeds
            &&& strings_view(q.context.nodes@) == context_spec(*bundle, seeds)
            &&& exists|fits: Seq<bool>|
                search_done(#[trigger] context_search(*bundle, q.context, fits)) && q.prompt@ == search_prompt(
                    context_pieces(*bundle, strings_view(q.context.nodes@)),
                    context_search(*bundle, q.context, fits),
                    *bundle,
                    request.question@,
                )
            &&& exists|ps: Seq<PieceView>|
                is_candidate(ps, context_pieces(*bundle, strings_view(q.context.nodes@)), seed_count_of(q.context))
                    && #[trigger] render_spec(ps, *bundle, request.question@, false) == q.prompt@
        },
{
    check_top_k(request.top_k)?;
    let (seeds, retrieval) = match embedded {
        Some(v) => (v, Retrieval::Embedding),
        None => (label_rank(bundle, request.question, request.top_k), Retrieval::Label),
    };
    let context = expand(bundle, seeds.as_slice());
    let prompt = build(bundle, &context, request.question, request.context_reserve, chat)?;
    Ok(PreparedQuery { context, prompt, retrieval })
}

/// The response to a prepared query once the chat model has answered it:
/// the answer as given, how the seeds were found, and the citations of the
/// answer.
pub fn finish_query(bundle: &LoadedBundle, query: PreparedQuery, answer: String) -> (resp: QueryResponse)
    ensures
        resp.answer == answer,
        resp.retrieval == query.retrieval,
        resp.citations@.len() == cited_ids(strings_view(query.context.nodes@), strings_view(query.context.seeds@), answer@).len(),
        forall|i: int|
            0 <= i < resp.citations@.len() ==> citation_matches(
                *bundle,
                #[trigger] cited_ids(strings_view(query.context.nodes@), strings_view(query.context.seeds@), answer@)[i],
                resp.citations@[i],
            ),
{
    let cited = citations(bundle, answer.as_str(), &query.context);
    QueryResponse { answer, retrieval: query.retrieval, citations: cited }
}

/// Answers one question from a loaded bundle: `prepare_query`, then the chat
/// model completes the prompt, then `finish_query` cites the answer. A
/// `top_k` outside 1..=32 is refused first; a failure of the chat model is
/// passed on.
pub fn run_query<C: ChatModel + ?Sized>(
    request: &QueryRequest,
    bundle: &LoadedBundle,
    chat: &mut C,
    embedded: Option<Vec<usize>>,
) -> (r: Result<QueryResponse, AskError>)
    ensures
        !(1 <= request.top_k <= 32) ==> (r matches Err(e) && e@ == AskErrorView::Usage(top_k_message())),
        r matches Ok(resp) ==> {
            let seeds = query_seeds(*bundle, request.question@, request.top_k, embedded);
            let nodes = context_spec(*bundle, seeds);
            &&& 1 <= request.top_k <= 32
            &&& resp.retrieval == retrieval_of(embedded)
            &&& resp.citations@.len() == cited_ids(nodes, seeds, resp.answer@).len()
            &&& forall|i: int|
                0 <= i < resp.citations@.len() ==> citation_matches(
                    *bundle,
                    #[trigger] cited_ids(nodes, seeds, resp.answer@)[i],
                    resp.citations@[i],
                )
        },
{
    let prepared = prepare_query(request, bundle, chat, embedded)?;
    let answer = chat.complete(prepared.prompt.as_str())?;
    Ok(finish_query(bundle, prepared, answer))
}

/// The answer, ending in a newline, then `Citations:` and one line per
/// citation: id, title and link, separated by tabs.
pub open spec fn text_output(answer: Seq<char>, cites: Seq<Citation>) -> Seq<char> {
    let head = if answer.len() > 0 && answer.last() == '\n' {
        answer
    } else {
        answer + "\n"@
    };
    head + "Citations:\n"@ + citation_lines(cites, cites.len() as int)
}

/// The lines of the first `n` citations.
pub open spec fn citation_lines(cites: Seq<Citation>, n: int) -> Seq<char>
    decreases n,
{
    if n <= 0 || n > cites.len() {
        Seq::empty()
    } else {
        let c = cites[n - 1];
        citation_lines(cites, n - 1) + c.node_id@ + "\t"@ + c.title@ + "\t"@ + (match opt_view(
            c.wahapedia_link,
        ) {
            Some(l) => l,
            None => Seq::empty(),
        }) + "\n"@
    }
}

/// The text form of a response.
pub fn render_text(response: &QueryResponse) -> (t: String)
    ensures
        t@ == text_output(response.answer@, response.citations@),
{
    proof {
        reveal_strlit("\n");
        reveal_strlit("\t");
        reveal_strlit("Citations:\n");
        reveal_strlit("");
    }
    let mut out = chars_of(response.answer.as_str());
    if !(out.len() > 0 && out[out.len() - 1] == '\n') {
        out.push('\n');
    }
    append_str(&mut out, "Citations:\n");
    let ghost head = out@;
    let mut i: usize = 0;
    while i < response.citations.len()
        invariant
            i <= response.citations@.len(),
            out@ == head + citation_lines(response.citations@, i as int),
        decreases response.citations@.len() - i,
    {
        let c = &response.citations[i];
        proof {
            reveal_strlit("\n");
            reveal_strlit("\t");
            reveal_strlit("");
        }
        let ghost before = out@;
        append_str(&mut out, c.node_id.as_str());
        out.push('\t');
        append_str(&mut out, c.title.as_str());
        out.push('\t');
        let link: &str = match &c.wahapedia_link {
            Some(l) => l.as_str(),
            None => "",
        };
        assert(link@ == (match opt_view(c.wahapedia_link) {
            Some(l) => l,
            None => Seq::<char>::empty(),
        }));
        append_str(&mut out, link);
        out.push('\n');
        assert(out@ =~= before + c.node_id@ + "\t"@ + c.title@ + "\t"@ + (match opt_view(c.wahapedia_link) {
            Some(l) => l,
            None => Seq::empty(),
        }) + "\n"@);
        i = i + 1;
    }
    string_of(out.as_slice())
}

/// The pretty JSON array of `items` (each already JSON text) at `indent`:
/// `[]` when empty, else one item per line, two spaces further in.
pub open spec fn json_array(items: Seq<Seq<char>>, indent: Seq<char>) -> Seq<char> {
    if items.len() == 0 {
        "[]"@
    } else {
        "[\n"@ + join(items.map_values(|x: Seq<char>| indent + "  "@ + x), ",\n"@) + "\n"@ + indent + "]"@
    }
}

/// The pretty JSON object of one citation, its fields six spaces in.
pub open spec fn citation_json(c: Citation) -> Seq<char> {
    "{\n      \"node_id\": "@ + json_string_spec(c.node_id@) + ",\n      \"title\": "@ + json_string_spec(c.title@)
        + ",\n      \"wahapedia_link\": "@ + (match opt_view(c.wahapedia_link) {
        Some(l) => json_string_spec(l),
        None => "null"@,
    }) + ",\n      \"neighbors\": "@ + json_array(
        strings_view(c.neighbors@).map_values(|n: Seq<char>| json_string_spec(n)),
        "      "@,
    ) + "\n    }"@
}

/// The response as pretty JSON with two-space indentation, and a newline.
pub open spec fn json_output(r: QueryResponse) -> Seq<char> {
    "{\n  \"answer\": "@ + json_string_spec(r.answer@) + ",\n  \"retrieval\": "@ + json_string_spec(
        retrieval_name(r.retrieval),
    ) + ",\n  \"citations\": "@ + json_array(
        r.citations@.map_values(|c: Citation| citation_json(c)),
        "  "@,
    ) + "\n}\n"@
}

/// `bad flag: --output` and the example.
pub open spec fn bad_output_message() -> Seq<char> {
    "bad flag: --output\n"@ + QUERY_EXAMPLE@
}

fn push_json_array(out: &mut Vec<char>, items: &Vec<String>, indent: &str)
    ensures
        final(out)@ == old(out)@ + json_array(strings_view(items@), indent@),
{
    let ghost start = out@;
    let ghost iv = strings_view(items@);
    let ghost parts = iv.map_values(|x: Seq<char>| indent@ + "  "@ + x);
    if items.len() == 0 {
        append_str(out, "[]");
        return;
    }
    append_str(out, "[\n");
    let ghost head = out@;
    let mut k: usize = 0;
    while k < items.len()
        invariant
            k <= items@.len(),
            items@.len() > 0,
            iv == strings_view(items@),
            parts == iv.map_values(|x: Seq<char>| indent@ + "  "@ + x),
            out@ == head + join(parts.take(k as int), ",\n"@),
        decreases items@.len() - k,
    {
        proof {
            assert(parts.take(k + 1).drop_last() =~= parts.take(k as int));
            assert(parts[k as int] == indent@ + "  "@ + items@[k as int]@);
        }
        let ghost before = out@;
        if k > 0 {
            append_str(out, ",\n");
        }
        append_str(out, indent);
        append_str(out, "  ");
        append_str(out, items[k].as_str());
        proof {
            if k == 0 {
                assert(parts.take(1) =~= seq![parts[0]]);
            }
        }
        k = k + 1;
    }
    assert(parts.take(k as int) =~= parts);
    append_str(out, "\n");
    append_str(out, indent);
    append_str(out, "]");
}

fn json_strings(v: &Vec<String>) -> (r: Vec<String>)
    ensures
        strings_view(r@) == strings_view(v@).map_values(|n: Seq<char>| json_string_spec(n)),
{
    let mut r: Vec<String> = Vec::new();
    let mut i: usize = 0;
    while i < v.len()
        invariant
            i <= v@.len(),
            strings_view(r@) == strings_view(v@).take(i as int).map_values(|n: Seq<char>| json_string_spec(n)),
        decreases v@.len() - i,
    {
        let ghost before = strings_view(r@);
        r.push(json_string(v[i].as_str()));
        proof {
            assert(strings_view(v@).take(i + 1) =~= strings_view(v@).take(i as int).push(v@[i as int]@));
            assert(strings_view(r@) =~= before.push(json_string_spec(v@[i as int]@)));
        }
        i = i + 1;
    }
    assert(strings_view(v@).take(i as int) =~= strings_view(v@));
    r
}

fn citation_text(c: &Citation) -> (t: String)
    ensures
        t@ == citation_json(*c),
{
    let mut out = chars_of("{\n      \"node_id\": ");
    append_str(&mut out, json_string(c.node_id.as_str()).as_str());
    append_str(&mut out, ",\n      \"title\": ");
    append_str(&mut out, json_string(c.title.as_str()).as_str());
    append_str(&mut out, ",\n      \"wahapedia_link\": ");
    match &c.wahapedia_link {
        Some(l) => append_str(&mut out, json_string(l.as_str()).as_str()),
        None => append_str(&mut out, "null"),
    }
    append_str(&mut out, ",\n      \"neighbors\": ");
    let items = json_strings(&c.neighbors);
    push_json_array(&mut out, &items, "      ");
    append_str(&mut out, "\n    }");
    string_of(out.as_slice())
}

/// The pretty JSON form of a response.
fn render_json(response: &QueryResponse) -> (t: String)
    ensures
        t@ == json_output(*response),
{
    let mut out = chars_of("{\n  \"answer\": ");
    append_str(&mut out, json_string(response.answer.as_str()).as_str());
    append_str(&mut out, ",\n  \"retrieval\": ");
    append_str(&mut out, json_string(response.retrieval.as_str()).as_str());
    append_str(&mut out, ",\n  \"citations\": ");
    let mut items: Vec<String> = Vec::new();
    let mut i: usize = 0;
    while i < response.citations.len()
        invariant
            i <= response.citations@.len(),
            strings_view(items@) == response.citations@.take(i as int).map_values(|c: Citation| citation_json(c)),
        decreases response.citations@.len() - i,
    {
        let ghost before = strings_view(items@);
        items.push(citation_text(&response.citations[i]));
        proof {
            assert(response.citations@.take(i + 1) =~= response.citations@.take(i as int).push(
                response.citations@[i as int],
            ));
            assert(strings_view(items@) =~= before.push(citation_json(response.citations@[i as int])));
        }
        i = i + 1;
    }
    assert(response.citations@.take(i as int) =~= response.citations@);
    push_json_array(&mut out, &items, "  ");
    append_str(&mut out, "\n}\n");
    string_of(out.as_slice())
}

/// Renders a response as `text` or `json`; any other `output` is a usage
/// failure that shows the example.
pub fn render_output(response: &QueryResponse, output: &str) -> (r: Result<String, AskError>)
    ensures
        output@ == "text"@ ==> (r matches Ok(t) && t@ == text_output(response.answer@, response.citations@)),
        output@ == "json"@ ==> (r matches Ok(t) && t@ == json_output(*response)),
        !(output@ == "text"@ || output@ == "json"@) ==> (r matches Err(e) && e@ == AskErrorView::Usage(
            bad_output_message(),
        )),
{
    proof {
        reveal_strlit("text");
        reveal_strlit("json");
        assert("json"@ != "text"@) by {
            assert("json"@[0] != "text"@[0]);
        }
    }
    if str_eq(output, "text") {
        Ok(render_text(response))
    } else if str_eq(output, "json") {
        Ok(render_json(response))
    } else {
        let mut m = chars_of("bad flag: --output\n");
        append_str(&mut m, QUERY_EXAMPLE);
        Err(AskError::Usage(string_of(m.as_slice())))
    }
}

} // verus!
