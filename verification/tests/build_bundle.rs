use std::cmp::Ordering;

use sha2::Digest;
use warhammer_graph::graph::attrs::{AttrValue, Attrs};
use warhammer_graph::graph::builder::{build_graph, check_built, GraphBundle};
use warhammer_graph::graph::bundle::{check_graph, check_versions, validate_bundle, BundleFiles, Snapshot};
use warhammer_graph::graph::corpus::{check_schema_version, corpus_from, corpus_rows, Corpus, Entity};
use warhammer_graph::graph::error::GraphError;
use warhammer_graph::graph::model::{EdgeRecord, GraphEdge, GraphNode};
use warhammer_graph::graph::textutil::cmp_integer_strings;
use warhammer_graph::graph::summary::{build_example, render_summary, require_output, validate_example};

fn entity(id: &str, table: &str, fields: &[(&str, &str)], refs: &[(&str, Option<&str>)]) -> Entity {
    Entity {
        id: id.to_string(),
        table: table.to_string(),
        fields: fields.iter().map(|(k, v)| (k.to_string(), v.to_string())).collect(),
        refs: refs.iter().map(|(k, v)| (k.to_string(), v.map(str::to_string))).collect(),
    }
}

fn corpus(entities: Vec<Entity>) -> Corpus {
    corpus_from("10ed", "2020-01-01", entities, b"rows\n")
}

fn faction() -> Entity {
    entity(
        "10ed:faction:EX1",
        "faction",
        &[("name", "Example Faction"), ("link", "https://example.invalid/faction")],
        &[],
    )
}

fn datasheet(id: &str, name: &str, faction: Option<&str>) -> Entity {
    entity(
        id,
        "datasheet",
        &[("name", name), ("role", "Battleline"), ("link", "https://example.invalid/unit")],
        &[("faction_id", faction), ("source_id", None)],
    )
}

fn copy_attrs(a: &Attrs) -> Attrs {
    let mut out = Attrs::new();
    for (key, value) in a.entries() {
        match value {
            AttrValue::Text(t) => out.insert_text(key, t),
            AttrValue::List(items) => out.insert_list(key, items.clone()),
        }
    }
    out
}

fn snapshot_of(graph: &GraphBundle) -> Snapshot {
    let nodes = graph
        .nodes
        .iter()
        .map(|n| GraphNode {
            id: n.id.clone(),
            kind: n.kind.clone(),
            label: n.label.clone(),
            text: n.text.clone(),
            attrs: copy_attrs(&n.attrs),
            source_url: n.source_url.clone(),
        })
        .collect::<Vec<_>>();
    let edges = graph.edges.iter().map(|e| e.to_graph_edge()).collect::<Vec<GraphEdge>>();
    Ok((nodes, edges))
}

fn kinds<'a>(graph: &'a GraphBundle, kind: &str) -> Vec<&'a GraphNode> {
    graph.nodes.iter().filter(|n| n.kind == kind).collect()
}

fn edges_of<'a>(graph: &'a GraphBundle, kind: &str) -> Vec<&'a EdgeRecord> {
    graph.edges.iter().filter(|e| e.kind == kind).collect()
}

fn keyword_row(id: &str, keyword: &str, model: &str) -> Entity {
    entity(
        id,
        "datasheet_keyword",
        &[("keyword", keyword), ("model", model), ("is_faction_keyword", "false")],
        &[("datasheet_id", Some("10ed:datasheet:EXDS"))],
    )
}

#[test]
fn keywords_that_normalize_alike_share_one_node() {
    let graph = build_graph(&corpus(vec![
        faction(),
        datasheet("10ed:datasheet:EXDS", "Example Unit", Some("10ed:faction:EX1")),
        keyword_row("10ed:datasheet_keyword:1", "Example", "a"),
        keyword_row("10ed:datasheet_keyword:2", " example ", "b"),
    ]));
    let keywords = kinds(&graph, "Keyword");
    assert_eq!(keywords.len(), 1);
    assert_eq!(keywords[0].label, "Example");
    assert_eq!(keywords[0].id, "10ed:keyword:example");
    assert_eq!(keywords[0].attrs.text("normalized"), Some("example"));
    assert_eq!(keywords[0].source_url, None);
    let edges = edges_of(&graph, "DATASHEET_HAS_KEYWORD");
    assert_eq!(edges.len(), 2);
    assert_eq!(edges[0].attrs.text("model"), Some("a"));
    assert_eq!(edges[1].attrs.text("model"), Some("b"));
    assert_eq!(graph.nodes.last().unwrap().kind, "Keyword");
}

#[test]
fn wargear_profiles_sort_numerically_into_one_node() {
    let graph = build_graph(&corpus(vec![
        faction(),
        datasheet("10ed:datasheet:EXDS", "Example Unit", Some("10ed:faction:EX1")),
        entity(
            "10ed:datasheet_wargear:b",
            "datasheet_wargear",
            &[("datasheet_id", "EXDS"), ("line", "1"), ("line_in_wargear", "10"), ("name", "Blade")],
            &[("datasheet_id", Some("10ed:datasheet:EXDS"))],
        ),
        entity(
            "10ed:datasheet_wargear:a",
            "datasheet_wargear",
            &[("datasheet_id", "EXDS"), ("line", "1"), ("line_in_wargear", "2"), ("name", "Gun"), ("range", "24\"")],
            &[("datasheet_id", Some("10ed:datasheet:EXDS"))],
        ),
    ]));
    let wargear = kinds(&graph, "Wargear");
    assert_eq!(wargear.len(), 1);
    assert_eq!(wargear[0].id, "10ed:wargear:EXDS:1");
    assert_eq!(wargear[0].label, "Gun");
    assert_eq!(wargear[0].text, "Gun\n24\"");
    assert_eq!(wargear[0].source_url.as_deref(), Some("https://example.invalid/unit"));
    match wargear[0].attrs.entries().iter().find(|(k, _)| k == "profile_entity_ids") {
        Some((_, AttrValue::List(ids))) => assert_eq!(
            ids,
            &vec!["10ed:datasheet_wargear:a".to_string(), "10ed:datasheet_wargear:b".to_string()]
        ),
        _ => panic!("profile_entity_ids is a list"),
    }
    let edges = edges_of(&graph, "DATASHEET_HAS_WARGEAR");
    assert_eq!(edges.len(), 1);
    assert_eq!(edges[0].from, "10ed:datasheet:EXDS");
    assert_eq!(edges[0].to, "10ed:wargear:EXDS:1");
    assert_eq!(graph.edges.last().unwrap().kind, "DATASHEET_HAS_WARGEAR");
}

#[test]
fn inline_ability_is_a_node_and_shared_ability_is_an_edge() {
    let graph = build_graph(&corpus(vec![
        faction(),
        datasheet("10ed:datasheet:EXDS", "Example Unit", Some("10ed:faction:EX1")),
        entity("10ed:ability:A1", "ability", &[("name", "Shared")], &[("faction_id", None)]),
        entity(
            "10ed:datasheet_ability:1",
            "datasheet_ability",
            &[("type", "Core"), ("parameter", "6\""), ("line", "1")],
            &[("datasheet_id", Some("10ed:datasheet:EXDS")), ("ability_id", Some("10ed:ability:A1"))],
        ),
        entity(
            "10ed:datasheet_ability:2",
            "datasheet_ability",
            &[("name", ""), ("description", "<b>Strike</b> first")],
            &[("datasheet_id", Some("10ed:datasheet:EXDS")), ("ability_id", None)],
        ),
    ]));
    let abilities = kinds(&graph, "Ability");
    assert_eq!(abilities.len(), 2);
    assert_eq!(abilities[1].id, "10ed:datasheet_ability:2");
    assert_eq!(abilities[1].label, "Ability");
    assert_eq!(abilities[1].text, "Strike first");
    let edges = edges_of(&graph, "DATASHEET_HAS_ABILITY");
    assert_eq!(edges.len(), 2);
    assert_eq!(edges[0].to, "10ed:ability:A1");
    assert_eq!(edges[0].attrs.text("type"), Some("Core"));
    assert_eq!(edges[0].attrs.text("parameter"), Some("6\""));
    assert_eq!(edges[1].to, "10ed:datasheet_ability:2");
}

#[test]
fn leader_edge_runs_from_leader_to_attached_unit() {
    let graph = build_graph(&corpus(vec![
        faction(),
        datasheet("10ed:datasheet:LEAD", "Leader", Some("10ed:faction:EX1")),
        datasheet("10ed:datasheet:BODY", "Body", Some("10ed:faction:EX1")),
        entity(
            "10ed:datasheet_leader:1",
            "datasheet_leader",
            &[],
            &[("leader_id", Some("10ed:datasheet:LEAD")), ("attached_id", Some("10ed:datasheet:BODY"))],
        ),
    ]));
    let edges = edges_of(&graph, "DATASHEET_CAN_LEAD");
    assert_eq!(edges.len(), 1);
    assert_eq!(edges[0].from, "10ed:datasheet:LEAD");
    assert_eq!(edges[0].to, "10ed:datasheet:BODY");
}

#[test]
fn edge_ids_hash_the_endpoints_and_canonical_attrs() {
    let graph = build_graph(&corpus(vec![
        faction(),
        datasheet("10ed:datasheet:EXDS", "Example Unit", Some("10ed:faction:EX1")),
    ]));
    let edge = &edges_of(&graph, "FACTION_HAS_DATASHEET")[0];
    let digest = sha2::Sha256::digest(b"10ed:faction:EX1\n10ed:datasheet:EXDS\n{}");
    let hex = digest.iter().map(|b| format!("{b:02x}")).collect::<String>();
    assert_eq!(edge.id, format!("10ed:edge:FACTION_HAS_DATASHEET:{}", &hex[..16]));
}

#[test]
fn edges_to_missing_nodes_are_dropped_and_duplicates_kept_once() {
    let graph = build_graph(&corpus(vec![
        faction(),
        datasheet("10ed:datasheet:EXDS", "Example Unit", Some("10ed:faction:EX1")),
        entity(
            "10ed:datasheet_stratagem:1",
            "datasheet_stratagem",
            &[],
            &[("datasheet_id", Some("10ed:datasheet:EXDS")), ("stratagem_id", Some("10ed:stratagem:GONE"))],
        ),
        entity(
            "10ed:datasheet_leader:1",
            "datasheet_leader",
            &[],
            &[("leader_id", Some("10ed:datasheet:EXDS")), ("attached_id", Some("10ed:datasheet:EXDS"))],
        ),
        entity(
            "10ed:datasheet_leader:2",
            "datasheet_leader",
            &[],
            &[("leader_id", Some("10ed:datasheet:EXDS")), ("attached_id", Some("10ed:datasheet:EXDS"))],
        ),
    ]));
    assert!(edges_of(&graph, "DATASHEET_USES_STRATAGEM").is_empty());
    assert_eq!(edges_of(&graph, "DATASHEET_CAN_LEAD").len(), 1);
}

#[test]
fn building_twice_gives_the_same_bundle() {
    let rows = || {
        vec![
            faction(),
            datasheet("10ed:datasheet:EXDS", "Example Unit", Some("10ed:faction:EX1")),
            keyword_row("10ed:datasheet_keyword:1", "Example", "a"),
        ]
    };
    let first = build_graph(&corpus(rows()));
    let second = build_graph(&corpus(rows()));
    assert_eq!(first.nodes.len(), second.nodes.len());
    for (a, b) in first.nodes.iter().zip(second.nodes.iter()) {
        assert_eq!((&a.id, &a.kind, &a.label, &a.text, &a.source_url), (&b.id, &b.kind, &b.label, &b.text, &b.source_url));
    }
    for (a, b) in first.edges.iter().zip(second.edges.iter()) {
        assert_eq!((&a.id, &a.kind, &a.from, &a.to), (&b.id, &b.kind, &b.from, &b.to));
    }
    assert_eq!(first.manifest.node_count, 3);
    assert_eq!(first.manifest.passage_count, 3);
    assert_eq!(first.manifest.edge_count, 2);
}

#[test]
fn passages_mirror_nodes_and_manifest_counts_kinds() {
    let graph = build_graph(&corpus(vec![
        faction(),
        datasheet("10ed:datasheet:EXDS", "Example Unit", Some("10ed:faction:EX1")),
    ]));
    assert_eq!(graph.passages.len(), graph.nodes.len());
    for (n, p) in graph.nodes.iter().zip(graph.passages.iter()) {
        assert_eq!(p.node_id, n.id);
        assert_eq!(p.title, n.label);
        assert_eq!(p.text, n.text);
        assert_eq!(p.wahapedia_link, n.source_url);
    }
    let counts = graph.manifest.node_counts_by_kind.entries();
    assert_eq!(counts, &vec![("Datasheet".to_string(), 1), ("Faction".to_string(), 1)]);
    assert_eq!(graph.manifest.format_version, 1);
    assert_eq!(graph.manifest.corpus_schema_version, 1);
    let hex = sha2::Sha256::digest(b"rows\n").iter().map(|b| format!("{b:02x}")).collect::<String>();
    assert_eq!(graph.manifest.corpus_fingerprint, hex);
}

#[test]
fn built_bundle_passes_validation() {
    let graph = build_graph(&corpus(vec![
        faction(),
        datasheet("10ed:datasheet:EXDS", "Example Unit", Some("10ed:faction:EX1")),
        keyword_row("10ed:datasheet_keyword:1", "Example", "a"),
    ]));
    let snapshot = snapshot_of(&graph);
    let summary = check_built(&graph, &snapshot, "./bundle").unwrap();
    assert_eq!(summary.nodes, 3);
    assert_eq!(summary.edges, 2);
    assert_eq!(summary.bundle, "./bundle");
    let text = render_summary(&summary, "text", build_example()).unwrap();
    assert!(text.starts_with("bundle: ./bundle\nformat_version: 1\nnodes: 3\nedges: 2\npassages: 3\n"));
    let json = render_summary(&summary, "json", build_example()).unwrap();
    assert!(json.starts_with("{\"bundle\":\"./bundle\",\"format_version\":1,\"nodes\":3,"));
    assert!(json.ends_with("}\n"));
}

#[test]
fn null_faction_ref_exits_4_and_leaves_out_unchanged() {
    let graph = build_graph(&corpus(vec![
        faction(),
        datasheet("10ed:datasheet:EXDS", "Example Unit", None),
    ]));
    let snapshot = snapshot_of(&graph);
    let err = check_built(&graph, &snapshot, "./bundle").unwrap_err();
    assert_eq!(err.exit_code(), 4);
    assert!(err.message().starts_with("10ed:datasheet:EXDS: "));
}

#[test]
fn validate_rejects_a_missing_edge_target() {
    let graph = build_graph(&corpus(vec![
        faction(),
        datasheet("10ed:datasheet:EXDS", "Example Unit", Some("10ed:faction:EX1")),
    ]));
    let snapshot = snapshot_of(&graph);
    let mut edges = graph.edges.iter().map(|e| EdgeRecord {
        id: e.id.clone(),
        kind: e.kind.clone(),
        from: e.from.clone(),
        to: e.to.clone(),
        attrs: copy_attrs(&e.attrs),
    }).collect::<Vec<_>>();
    edges[0].to = "10ed:datasheet:MISSING".to_string();
    let err = check_graph(&graph.nodes, &edges, &graph.passages, &graph.manifest, &snapshot).unwrap_err();
    assert_eq!(err.exit_code(), 4);
    assert!(err.message().starts_with("10ed:datasheet:MISSING: edge endpoint is not a node id"));
}

#[test]
fn undecodable_snapshot_is_a_read_failure() {
    let graph = build_graph(&corpus(vec![faction()]));
    let err = check_built(&graph, &Err("bad".to_string()), "x").unwrap_err();
    assert!(matches!(err, GraphError::Read(_)));
    assert_eq!(err.message(), "graph.postcard: cannot decode postcard snapshot: bad");
}

#[test]
fn schema_version_2_exits_3() {
    let err = check_schema_version(Some(2), "2", "corpus/corpus-meta").unwrap_err();
    assert_eq!(err.exit_code(), 3);
    assert_eq!(err.message(), "corpus/corpus-meta: schema_version is not 1 (found 2)");
    assert!(check_schema_version(Some(1), "1", "m").is_ok());
}

#[test]
fn format_version_is_checked_before_the_graph() {
    let mut graph = build_graph(&corpus(vec![faction()]));
    graph.manifest.format_version = 2;
    let err = check_versions(&graph.manifest, "b/bundle-meta").unwrap_err();
    assert_eq!(err.exit_code(), 3);
    assert_eq!(err.message(), "b/bundle-meta: format_version is not 1 (found 2)");
}

#[test]
fn blank_corpus_rows_are_refused_with_their_line() {
    let (rows, blank) = corpus_rows("entities.jsonl", "{}\n\n{}\n");
    assert_eq!(rows, vec!["{}"]);
    let err = blank.unwrap_err();
    assert_eq!(err.message(), "entities.jsonl: blank line 2");
    let (rows, blank) = corpus_rows("e", "{\"a\":1}\n{\"b\":2}\n");
    assert!(blank.is_ok());
    assert_eq!(rows, vec!["{\"a\":1}", "{\"b\":2}"]);
}

#[test]
fn help_lists_examples() {
    assert_eq!(build_example(), "wh-graph build --corpus ./corpus --out ./bundle");
    assert_eq!(validate_example(), "wh-graph validate --bundle ./bundle");
}

#[test]
fn bad_output_exits_2() {
    let err = require_output("yaml", validate_example()).unwrap_err();
    assert_eq!(err.exit_code(), 2);
    assert!(err.message().contains("bad flag: --output"));
    assert!(err.message().contains("wh-graph validate --bundle ./bundle"));
}

#[test]
fn a_corpus_of_thousands_of_rows_builds_and_validates() {
    let mut rows = vec![faction()];
    for n in 0..1500 {
        let ds = format!("10ed:datasheet:DS{n}");
        rows.push(datasheet(&ds, &format!("Unit {n}"), Some("10ed:faction:EX1")));
        for (k, keyword) in [format!("Keyword {}", n % 300), "Infantry".to_string()].iter().enumerate() {
            rows.push(entity(
                &format!("10ed:datasheet_keyword:{n}-{k}"),
                "datasheet_keyword",
                &[("keyword", keyword), ("model", ""), ("is_faction_keyword", "false")],
                &[("datasheet_id", Some(ds.as_str()))],
            ));
        }
        for line in ["1", "2"] {
            rows.push(entity(
                &format!("10ed:datasheet_wargear:{n}-{line}"),
                "datasheet_wargear",
                &[("datasheet_id", &format!("DS{n}")), ("line", line), ("line_in_wargear", "1"), ("name", "Blade")],
                &[("datasheet_id", Some(ds.as_str()))],
            ));
        }
    }
    let graph = build_graph(&corpus(rows));
    assert_eq!(kinds(&graph, "Datasheet").len(), 1500);
    assert_eq!(kinds(&graph, "Keyword").len(), 301);
    assert_eq!(kinds(&graph, "Wargear").len(), 3000);
    assert_eq!(edges_of(&graph, "FACTION_HAS_DATASHEET").len(), 1500);
    assert_eq!(edges_of(&graph, "DATASHEET_HAS_KEYWORD").len(), 3000);
    let summary = check_built(&graph, &snapshot_of(&graph), "./bundle").unwrap();
    assert_eq!(summary.nodes, graph.nodes.len());
    assert_eq!(summary.edges, graph.edges.len());
}

#[test]
fn snapshot_that_differs_from_the_files_is_rejected() {
    let graph = build_graph(&corpus(vec![
        faction(),
        datasheet("10ed:datasheet:EXDS", "Example Unit", Some("10ed:faction:EX1")),
    ]));
    let Ok((mut nodes, edges)) = snapshot_of(&graph) else { panic!("snapshot") };
    nodes[1].label = "Renamed".to_string();
    let err = check_built(&graph, &Ok((nodes, edges)), "x").unwrap_err();
    assert_eq!(err.exit_code(), 4);
    assert_eq!(err.message(), "10ed:datasheet:EXDS: postcard node payload does not match nodes.jsonl");

    let Ok((nodes, mut edges)) = snapshot_of(&graph) else { panic!("snapshot") };
    edges.clear();
    let err = check_built(&graph, &Ok((nodes, edges)), "x").unwrap_err();
    assert_eq!(err.message(), "10ed:faction:EX1: postcard edge payload does not match edges.jsonl");

    let Ok((mut nodes, edges)) = snapshot_of(&graph) else { panic!("snapshot") };
    nodes.reverse();
    assert!(check_built(&graph, &Ok((nodes, edges)), "x").is_ok());
}

#[test]
fn integer_strings_compare_by_value() {
    assert_eq!(cmp_integer_strings("007", "+7"), Ordering::Equal);
    assert_eq!(cmp_integer_strings("-0", "0"), Ordering::Equal);
    assert_eq!(cmp_integer_strings("-00", "+0"), Ordering::Equal);
    assert_eq!(cmp_integer_strings("-10", "-2"), Ordering::Less);
    assert_eq!(cmp_integer_strings("-2", "3"), Ordering::Less);
    assert_eq!(cmp_integer_strings("10", "9"), Ordering::Greater);
    assert_eq!(
        cmp_integer_strings("123456789012345678901234567890", "123456789012345678901234567891"),
        Ordering::Less
    );
}

#[test]
fn canonical_attrs_escape_strings_as_json_does() {
    let mut attrs = Attrs::new();
    attrs.insert_text("k", "a\"b\\c\nd\u{1}e\u{7f}");
    assert_eq!(
        warhammer_graph::graph::attrs::canonical_attrs(&attrs),
        "{\"k\":\"a\\\"b\\\\c\\nd\\u0001e\u{7f}\"}"
    );
}

#[test]
fn a_freshly_built_bundle_validates_with_the_same_summary() {
    let graph = build_graph(&corpus(vec![
        faction(),
        datasheet("10ed:datasheet:EXDS", "Example Unit", Some("10ed:faction:EX1")),
        keyword_row("10ed:datasheet_keyword:1", "Example", "a"),
        keyword_row("10ed:datasheet_keyword:2", "Other", "b"),
    ]));
    let snapshot = snapshot_of(&graph);
    let built = check_built(&graph, &snapshot, "./a").unwrap();
    let files = BundleFiles {
        manifest: graph.manifest,
        nodes: graph.nodes,
        edges: graph.edges,
        passages: graph.passages,
        snapshot,
    };
    let validated = validate_bundle(&files, "./b/manifest", "./b").unwrap();
    assert_eq!(validated.bundle, "./b");
    assert_eq!(validated.format_version, 1);
    assert_eq!(validated.nodes, built.nodes);
    assert_eq!(validated.edges, built.edges);
    assert_eq!(validated.passages, built.passages);
    assert_eq!(validated.passages, validated.nodes);
    assert_eq!(validated.corpus_fingerprint, built.corpus_fingerprint);
    assert_eq!(validated.nodes, 4);
}

#[test]
fn attribute_count_grows_only_for_new_keys() {
    let mut attrs = Attrs::new();
    assert_eq!(attrs.len(), 0);
    attrs.insert_text("b", "1");
    assert_eq!(attrs.len(), 1);
    attrs.insert_text("a", "2");
    assert_eq!(attrs.len(), 2);
    attrs.insert_text("b", "3");
    assert_eq!(attrs.len(), 2);
    assert_eq!(attrs.text("b"), Some("3"));
    attrs.insert_list("a", vec!["x".to_string()]);
    assert_eq!(attrs.len(), 2);
    assert_eq!(attrs.text("a"), None);
    attrs.insert_list("c", Vec::new());
    assert_eq!(attrs.len(), 3);
    let keys: Vec<&str> = attrs.entries().iter().map(|(k, _)| k.as_str()).collect();
    assert_eq!(keys, vec!["a", "b", "c"]);
}

#[test]
fn edge_attributes_are_strings_in_key_order() {
    let graph = build_graph(&corpus(vec![
        faction(),
        datasheet("10ed:datasheet:EXDS", "Example Unit", Some("10ed:faction:EX1")),
        keyword_row("10ed:datasheet_keyword:1", "Example", "a"),
        entity(
            "10ed:datasheet_ability:1",
            "datasheet_ability",
            &[("line", "1"), ("model", "m"), ("type", "Core"), ("parameter", "6\""), ("name", "Deep Strike")],
            &[("datasheet_id", Some("10ed:datasheet:EXDS")), ("ability_id", None)],
        ),
    ]));
    let mut with_attrs = 0;
    for edge in &graph.edges {
        let keys: Vec<&str> = edge.attrs.entries().iter().map(|(k, _)| k.as_str()).collect();
        let mut sorted = keys.clone();
        sorted.sort();
        assert_eq!(keys, sorted);
        for (_, value) in edge.attrs.entries() {
            assert!(matches!(value, AttrValue::Text(_)));
        }
        if !keys.is_empty() {
            with_attrs += 1;
        }
    }
    assert_eq!(with_attrs, 2);
    let ability = edges_of(&graph, "DATASHEET_HAS_ABILITY");
    assert_eq!(ability.len(), 1);
    assert_eq!(ability[0].attrs.text("type"), Some("Core"));
    assert_eq!(ability[0].attrs.len(), 4);
}
