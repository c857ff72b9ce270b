use warhammer_graph::ask::bundle::{assemble_bundle, check_format_version, LoadedBundle};
use warhammer_graph::ask::error::AskError;
use warhammer_graph::ask::expand::ContextNodes;
use warhammer_graph::ask::prompt::{build, PromptSearch};
use warhammer_graph::ask::settings::{clamp_top_k, working_status};
use warhammer_graph::ask::index::{index_bytes, index_reusable, read_index, IndexRecord};
use warhammer_graph::ask::model::{ChatModel, EmbedIdentity};
use warhammer_graph::ask::query::{
    check_top_k, finish_query, prepare_query, query_flags, render_output, run_query, QueryRequest, Retrieval, QUERY_EXAMPLE,
};
use warhammer_graph::graph::attrs::Attrs;
use warhammer_graph::graph::model::{
    count_edge_kinds, count_node_kinds, BundleManifest, EdgeRecord, GraphNode, Passage,
};

struct ScriptChat {
    prompt: String,
    answer: String,
}

impl ChatModel for ScriptChat {
    fn context_tokens(&self) -> usize {
        1_000_000
    }

    fn count_tokens(&mut self, text: &str) -> Result<usize, AskError> {
        Ok(text.chars().count())
    }

    fn complete(&mut self, prompt: &str) -> Result<String, AskError> {
        self.prompt = prompt.to_string();
        Ok(self.answer.clone())
    }
}

struct BudgetChat {
    context: usize,
    counted: usize,
}

impl ChatModel for BudgetChat {
    fn context_tokens(&self) -> usize {
        self.context
    }

    fn count_tokens(&mut self, text: &str) -> Result<usize, AskError> {
        self.counted += 1;
        Ok(text.chars().count())
    }

    fn complete(&mut self, _prompt: &str) -> Result<String, AskError> {
        Ok(String::new())
    }
}

fn vector_for(node_id: &str) -> Vec<f32> {
    match node_id {
        "10ed:datasheet:EXDS" => vec![1.0, 0.0, 0.0, 0.0],
        "10ed:faction:EX1" => vec![0.0, 1.0, 0.0, 0.0],
        "10ed:keyword:example" => vec![0.0, 0.0, 1.0, 0.0],
        _ => vec![0.0, 0.0, 0.0, 1.0],
    }
}

fn identity() -> EmbedIdentity {
    EmbedIdentity {
        sha256: [7u8; 32],
        len: 3,
        mtime_secs: 9,
    }
}

fn request<'a>(question: &'a str, top_k: usize) -> QueryRequest<'a> {
    QueryRequest {
        bundle_dir: "./bundle",
        question,
        top_k,
        context_reserve: 1024,
        config_dir: "./config",
    }
}

fn node(id: &str, kind: &str, label: &str, text: &str, link: Option<&str>) -> GraphNode {
    GraphNode {
        id: id.to_string(),
        kind: kind.to_string(),
        label: label.to_string(),
        text: text.to_string(),
        attrs: Attrs::new(),
        source_url: link.map(str::to_string),
    }
}

fn edge(id: &str, kind: &str, from: &str, to: &str) -> EdgeRecord {
    EdgeRecord {
        id: id.to_string(),
        kind: kind.to_string(),
        from: from.to_string(),
        to: to.to_string(),
        attrs: Attrs::new(),
    }
}

fn parts(keywords: usize, distractor: bool) -> (Vec<GraphNode>, Vec<EdgeRecord>, Vec<Passage>, BundleManifest) {
    let faction = node("10ed:faction:EX1", "Faction", "Example Faction", "Example Faction", None);
    let datasheet = node(
        "10ed:datasheet:EXDS",
        "Datasheet",
        "Example Unit",
        "Example Unit fights.",
        Some("https://example.invalid/example-unit"),
    );
    let mut edges = vec![edge(
        "10ed:edge:FACTION_HAS_DATASHEET:0123456789abcdef",
        "FACTION_HAS_DATASHEET",
        &faction.id,
        &datasheet.id,
    )];
    let mut nodes = vec![faction, datasheet];
    if keywords == 0 {
        edges.push(edge(
            "10ed:edge:DATASHEET_HAS_KEYWORD:0123456789abcdef",
            "DATASHEET_HAS_KEYWORD",
            "10ed:datasheet:EXDS",
            "10ed:keyword:example",
        ));
        nodes.push(node("10ed:keyword:example", "Keyword", "Example", "Example", None));
    } else {
        for index in 0..keywords {
            let id = format!("10ed:keyword:k{index:02}");
            let label = format!("Keyword {index:02}");
            edges.push(edge(
                &format!("10ed:edge:DATASHEET_HAS_KEYWORD:{index:016x}"),
                "DATASHEET_HAS_KEYWORD",
                "10ed:datasheet:EXDS",
                &id,
            ));
            nodes.push(node(&id, "Keyword", &label, &label, None));
        }
    }
    if distractor {
        nodes.push(node("10ed:source:OTHER", "Source", "Other Note", "example unit is mentioned", None));
    }
    let passages = nodes
        .iter()
        .map(|item| Passage {
            node_id: item.id.clone(),
            title: item.label.clone(),
            text: item.text.clone(),
            wahapedia_link: item.source_url.clone(),
        })
        .collect::<Vec<_>>();
    let manifest = BundleManifest {
        format_version: 1,
        corpus_schema_version: 1,
        edition: "10ed".to_string(),
        corpus_fingerprint: "ab".repeat(32),
        last_update: "2020-01-01".to_string(),
        node_count: nodes.len(),
        edge_count: edges.len(),
        passage_count: passages.len(),
        node_counts_by_kind: count_node_kinds(&nodes),
        edge_counts_by_kind: count_edge_kinds(&edges),
    };
    (nodes, edges, passages, manifest)
}

fn bundle_with(keywords: usize, distractor: bool, passages_bytes: &[u8]) -> LoadedBundle {
    let (nodes, edges, passages, manifest) = parts(keywords, distractor);
    assemble_bundle(manifest, nodes, edges, passages, b"nodes", passages_bytes, "bundle/nodes.jsonl", None).unwrap()
}

fn bundle(keywords: usize, distractor: bool) -> LoadedBundle {
    bundle_with(keywords, distractor, b"passages")
}

fn node_ids(prompt: &str) -> Vec<String> {
    prompt
        .lines()
        .filter_map(|line| line.strip_prefix("node_id: "))
        .map(str::to_string)
        .collect()
}

fn chat(answer: &str) -> ScriptChat {
    ScriptChat {
        prompt: String::new(),
        answer: answer.to_string(),
    }
}

fn embedding_seeds(b: &LoadedBundle, top_k: usize) -> Vec<usize> {
    let query = vector_for("10ed:datasheet:EXDS");
    let mut ranked = b
        .passages
        .iter()
        .enumerate()
        .map(|(index, passage)| {
            let v = vector_for(&passage.node_id);
            (index, v.iter().zip(query.iter()).map(|(a, b)| a * b).sum::<f32>())
        })
        .collect::<Vec<_>>();
    ranked.sort_by(|l, r| r.1.partial_cmp(&l.1).unwrap().then(l.0.cmp(&r.0)));
    ranked.truncate(top_k);
    ranked.into_iter().map(|(index, _)| index).collect()
}

#[test]
fn label_search_ranks_example_unit_first() {
    let b = bundle(0, true);
    let mut chat = chat("labeled");
    let response = run_query(&request("example unit", 8), &b, &mut chat, None).unwrap();
    assert_eq!(response.retrieval, Retrieval::Label);
    assert_eq!(node_ids(&chat.prompt)[0], "10ed:datasheet:EXDS");
}

#[test]
fn embedding_expansion_includes_keyword_and_faction() {
    let b = bundle(0, false);
    let mut chat = chat("embedded");
    let seeds = embedding_seeds(&b, 1);
    let response = run_query(&request("which unit", 1), &b, &mut chat, Some(seeds)).unwrap();
    assert_eq!(response.retrieval, Retrieval::Embedding);
    let ids = node_ids(&chat.prompt);
    assert_eq!(ids[0], "10ed:datasheet:EXDS");
    assert!(ids.iter().any(|id| id == "10ed:keyword:example"));
    assert!(ids.iter().any(|id| id == "10ed:faction:EX1"));
}

#[test]
fn expansion_stops_at_32_nodes_and_keeps_the_seed() {
    let b = bundle(40, false);
    let mut chat = chat("capped");
    run_query(&request("example unit", 1), &b, &mut chat, None).unwrap();
    let ids = node_ids(&chat.prompt);
    assert_eq!(ids.len(), 32);
    assert_eq!(ids[0], "10ed:datasheet:EXDS");
    assert!(ids.iter().any(|id| id == "10ed:faction:EX1"));
    assert!(ids.iter().any(|id| id == "10ed:keyword:k00"));
    assert!(ids.iter().any(|id| id == "10ed:keyword:k29"));
    assert!(!ids.iter().any(|id| id == "10ed:keyword:k39"));
}

#[test]
fn citations_drop_ids_that_were_not_in_the_prompt() {
    let b = bundle(0, false);
    let mut chat = chat("Use [10ed:datasheet:EXDS] and [10ed:faction:MISSING] and [10ed:edge:FACTION_HAS_DATASHEET:0123456789abcdef].");
    let response = run_query(&request("example unit", 1), &b, &mut chat, None).unwrap();
    assert_eq!(response.citations.len(), 1);
    assert_eq!(response.citations[0].node_id, "10ed:datasheet:EXDS");
    assert_eq!(response.answer, chat.answer);
    assert!(response.citations[0]
        .neighbors
        .iter()
        .any(|label| label == "Example Faction" || label == "Example"));
}

#[test]
fn citations_fall_back_to_seeds_when_the_model_cites_nothing() {
    let b = bundle(0, false);
    let mut chat = chat("The passages do not contain the answer.");
    let response = run_query(&request("example unit", 1), &b, &mut chat, None).unwrap();
    assert_eq!(
        response
            .citations
            .iter()
            .map(|citation| citation.node_id.as_str())
            .collect::<Vec<_>>(),
        vec!["10ed:datasheet:EXDS"]
    );
    assert_eq!(
        response.citations[0].wahapedia_link.as_deref(),
        Some("https://example.invalid/example-unit")
    );
}

fn records_for(b: &LoadedBundle) -> Vec<IndexRecord> {
    b.passages
        .iter()
        .map(|p| IndexRecord {
            node_id: p.node_id.clone(),
            vector: vector_for(&p.node_id).iter().map(|x| x.to_bits()).collect(),
        })
        .collect()
}

#[test]
fn index_reuses_matching_passage_hash_and_rebuilds_when_it_changes() {
    let b = bundle(0, false);
    let records = records_for(&b);
    let bytes = index_bytes(&b, &identity(), 4, &records);
    assert!(bytes.starts_with(b"WHASK1"));
    let (header, stored) = read_index(&bytes).unwrap();
    assert!(index_reusable(&header, &stored, &b, &identity(), 4));
    assert_eq!(stored.len(), records.len());
    assert_eq!(stored[0].node_id, "10ed:faction:EX1");
    assert_eq!(f32::from_bits(stored[1].vector[0]), 1.0);
    let changed = bundle_with(0, false, b"passages changed");
    assert!(!index_reusable(&header, &stored, &changed, &identity(), 4));
    assert!(!index_reusable(&header, &stored, &b, &identity(), 5));
}

#[test]
fn corrupt_postcard_is_ignored() {
    let (nodes, edges, passages, manifest) = parts(0, false);
    let wrong = vec![node("10ed:faction:EX1", "Faction", "Changed", "Changed", None)];
    let b = assemble_bundle(
        manifest,
        nodes,
        edges,
        passages,
        b"n",
        b"p",
        "bundle/nodes.jsonl",
        Some((wrong, Vec::new())),
    )
    .unwrap();
    assert_eq!(b.node("10ed:faction:EX1").unwrap().label, "Example Faction");
    let mut chat = chat("still loaded");
    let response = run_query(&request("example unit", 1), &b, &mut chat, None).unwrap();
    assert_eq!(response.answer, "still loaded");
    assert_eq!(node_ids(&chat.prompt)[0], "10ed:datasheet:EXDS");
}

#[test]
fn format_version_two_exits_3() {
    let (_, _, _, mut manifest) = parts(0, false);
    manifest.format_version = 2;
    let err = check_format_version(&manifest, "bundle/bundle-meta").unwrap_err();
    assert_eq!(err.exit_code(), 3);
    assert_eq!(err.message(), "bundle/bundle-meta: format_version is not 1 (found 2)");
}

#[test]
fn top_k_out_of_range_exits_2_with_a_working_command() {
    let err = check_top_k(0).unwrap_err();
    assert_eq!(err.exit_code(), 2);
    assert!(err.message().contains(QUERY_EXAMPLE));
    let b = bundle(0, false);
    let mut chat = chat("unused");
    let err = run_query(&request("example unit", 33), &b, &mut chat, None).unwrap_err();
    assert_eq!(err.exit_code(), 2);
    assert!(chat.prompt.is_empty());
}

#[test]
fn help_includes_the_query_example() {
    assert!(QUERY_EXAMPLE.starts_with("wh-ask query --bundle ./bundle --chat-model ./models/chat.gguf --question"));
}

#[test]
fn text_and_json_output() {
    let b = bundle(0, false);
    let mut chat = chat("Answer [10ed:datasheet:EXDS]");
    let response = run_query(&request("example unit", 1), &b, &mut chat, None).unwrap();
    let text = render_output(&response, "text").unwrap();
    assert_eq!(
        text,
        "Answer [10ed:datasheet:EXDS]\nCitations:\n10ed:datasheet:EXDS\tExample Unit\thttps://example.invalid/example-unit\n"
    );
    let json = render_output(&response, "json").unwrap();
    assert_eq!(
        json,
        "{\n  \"answer\": \"Answer [10ed:datasheet:EXDS]\",\n  \"retrieval\": \"label\",\n  \"citations\": [\n    {\n      \"node_id\": \"10ed:datasheet:EXDS\",\n      \"title\": \"Example Unit\",\n      \"wahapedia_link\": \"https://example.invalid/example-unit\",\n      \"neighbors\": [\n        \"Example Faction\",\n        \"Example\"\n      ]\n    }\n  ]\n}\n"
    );
    let err = render_output(&response, "yaml").unwrap_err();
    assert_eq!(err.exit_code(), 2);
}

#[test]
fn query_flags_check_output_before_top_k() {
    assert_eq!(query_flags("text", None).unwrap(), 8);
    assert_eq!(query_flags("json", Some(32)).unwrap(), 32);
    assert_eq!(query_flags("text", Some(1)).unwrap(), 1);
    let err = query_flags("yaml", Some(0)).unwrap_err();
    assert_eq!(err.exit_code(), 2);
    assert_eq!(err.message(), format!("bad flag: --output\n{QUERY_EXAMPLE}"));
    let err = query_flags("text", Some(33)).unwrap_err();
    assert_eq!(err.exit_code(), 2);
    assert_eq!(err.message(), format!("--top-k must be from 1 to 32\n{QUERY_EXAMPLE}"));
    assert!(query_flags("json", Some(-1)).is_err());
}

#[test]
fn prompt_search_drops_blocks_then_cuts_the_seed() {
    let b = bundle(0, false);
    let context = ContextNodes {
        seeds: vec!["10ed:datasheet:EXDS".to_string()],
        nodes: vec!["10ed:datasheet:EXDS".to_string(), "10ed:faction:EX1".to_string()],
    };
    let mut search = PromptSearch::start(&b, &context, 10, 110);
    let whole = search.prompt(&b, "q");
    assert!(whole.contains("node_id: 10ed:faction:EX1"));
    assert!(!search.finished());
    search.advance(101);
    let seed_only = search.prompt(&b, "q");
    assert!(!seed_only.contains("node_id: 10ed:faction:EX1"));
    assert!(seed_only.contains("Example Unit fights.\n"));
    search.advance(101);
    let halved = search.prompt(&b, "q");
    assert!(halved.contains("\nExample Un\n---"));
    let mut steps = 0;
    while !search.finished() {
        search.advance(101);
        steps += 1;
        assert!(steps < 20);
    }
    let last = search.prompt(&b, "q");
    assert!(last.contains("node_id: 10ed:datasheet:EXDS"));
    assert!(!last.contains("fights"));

    let mut fitting = PromptSearch::start(&b, &context, 10, 110);
    fitting.advance(100);
    assert!(fitting.finished());
    assert_eq!(fitting.prompt(&b, "q"), whole);
}

#[test]
fn a_prepared_query_is_answered_with_the_answer_given() {
    let b = bundle(0, false);
    let mut chat = chat("unused");
    let prepared = prepare_query(&request("example unit", 1), &b, &mut chat, None).unwrap();
    assert_eq!(prepared.retrieval, Retrieval::Label);
    assert_eq!(prepared.context.seeds, vec!["10ed:datasheet:EXDS".to_string()]);
    assert!(prepared.prompt.contains("node_id: 10ed:datasheet:EXDS"));
    assert!(prepared.prompt.ends_with("\nQuestion: example unit\n"));
    let response = finish_query(&b, prepared, "See [10ed:datasheet:EXDS].".to_string());
    assert_eq!(response.answer, "See [10ed:datasheet:EXDS].");
    assert_eq!(response.citations.len(), 1);
    assert_eq!(response.citations[0].node_id, "10ed:datasheet:EXDS");
    assert!(chat.prompt.is_empty());
}

#[test]
fn build_keeps_the_most_blocks_that_fit() {
    let b = bundle(0, false);
    let context = ContextNodes {
        seeds: vec!["10ed:datasheet:EXDS".to_string()],
        nodes: vec!["10ed:datasheet:EXDS".to_string(), "10ed:faction:EX1".to_string()],
    };
    let mut search = PromptSearch::start(&b, &context, 0, 1_000_000);
    let whole = search.prompt(&b, "q");
    search.advance(usize::MAX);
    let seed_only = search.prompt(&b, "q");
    assert!(seed_only.chars().count() < whole.chars().count());

    let mut roomy = BudgetChat { context: whole.chars().count() + 7, counted: 0 };
    assert_eq!(build(&b, &context, "q", 7, &mut roomy).unwrap(), whole);
    assert_eq!(roomy.counted, 1);

    let mut tight = BudgetChat { context: seed_only.chars().count() + 7, counted: 0 };
    let chosen = build(&b, &context, "q", 7, &mut tight).unwrap();
    assert_eq!(chosen, seed_only);
    assert!(chosen.contains("Example Unit fights.\n"));
    assert_eq!(tight.counted, 2);
}

#[test]
fn form_submission_clamps_top_k_and_names_the_stage() {
    assert_eq!(clamp_top_k(0), 1);
    assert_eq!(clamp_top_k(1), 1);
    assert_eq!(clamp_top_k(12), 12);
    assert_eq!(clamp_top_k(32), 32);
    assert_eq!(clamp_top_k(33), 32);
    assert_eq!(working_status(" \t"), "Working…");
    assert_eq!(working_status(""), "Working…");
    assert_eq!(working_status("/models/embed.gguf"), "Building index…");
}
