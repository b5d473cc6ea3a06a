use semantic_search::batcher::{plan_batches, EmbeddingCycle};
use semantic_search::cleaner::clean_text;
use semantic_search::csv_format::{
    embedding_rows_from_csv, embedding_rows_to_csv, input_rows_from_csv, input_rows_to_csv,
};
use semantic_search::differ::diff;
use semantic_search::extract::{delimiter_accepted, extract_sections};
use semantic_search::provider::{EmbeddingInput, SupportedAPIs};
use semantic_search::ranker::rank_suggestions;
use semantic_search::rows::{EmbeddingRow, InputRow};
use semantic_search::strutil::usize_to_string;

fn unit(name: &str, mtime: &str, section: &str, body: &str) -> InputRow {
    InputRow {
        name: name.to_string(),
        mtime: mtime.to_string(),
        section: section.to_string(),
        body: body.to_string(),
    }
}

fn entry(name: &str, mtime: &str, header: &str, embedding: &str) -> EmbeddingRow {
    EmbeddingRow {
        name: name.to_string(),
        mtime: mtime.to_string(),
        header: header.to_string(),
        embedding: embedding.to_string(),
    }
}

#[test]
fn scenario_one_unit_with_body() {
    let res = extract_sections("doc", "1", "## Test\nThis is a test body.", "## ").unwrap();

    assert_eq!(res.len(), 1);
    assert_eq!(res[0].section, "Test");
    assert_eq!(res[0].body, "Test This is a test body.");
}

#[test]
fn extraction_is_deterministic() {
    let text = "## A\none\n## B\ntwo";
    let a = extract_sections("doc", "5", text, "^## ").unwrap();
    let b = extract_sections("doc", "5", text, "^## ").unwrap();

    assert_eq!(a.len(), b.len());
    for i in 0..a.len() {
        assert_eq!(a[i].name, b[i].name);
        assert_eq!(a[i].mtime, b[i].mtime);
        assert_eq!(a[i].section, b[i].section);
        assert_eq!(a[i].body, b[i].body);
    }
}

#[test]
fn invalid_delimiter_falls_back() {
    assert!(!delimiter_accepted("("));
    assert!(delimiter_accepted("^## .*"));

    // With an invalid delimiter every non-empty line starts its own unit.
    let res = extract_sections("doc", "1", "alpha\nbeta", "(").unwrap();
    assert_eq!(res.len(), 2);
    assert_eq!(res[0].section, "alpha");
    assert_eq!(res[1].section, "beta");
}

#[test]
fn cleaning_is_idempotent_on_cleaned_text() {
    let dirty = "  ## Hello ![x](y) world  ";
    let once = clean_text(dirty);
    let twice = clean_text(&once);

    assert_eq!(once, "Hello  world");
    assert_eq!(twice, once);
}

#[test]
fn cleaning_removes_hashtags_and_links() {
    assert_eq!(clean_text("#a ![x](y)b"), "a b");
    assert_eq!(clean_text(" \t "), "");
}

#[test]
fn scenario_all_reused_on_matching_mtime() {
    let input = vec![
        unit("doc1", "100", "A", "A body"),
        unit("doc1", "100", "B", "B body"),
    ];
    let prev = vec![entry("doc1", "100", "Old", "0.1,0.2")];

    let (n_modified, stale, reused) = diff(input, Some(prev));

    assert_eq!(n_modified, 0);
    assert_eq!(stale.len(), 0);
    assert_eq!(reused.len(), 2);
    assert_eq!(reused[0].header, "A");
    assert_eq!(reused[0].embedding, "0.1,0.2");
    assert_eq!(reused[1].header, "B");
    assert_eq!(reused[1].embedding, "0.1,0.2");
}

#[test]
fn mtime_mismatch_is_stale() {
    let input = vec![
        unit("doc1", "101", "A", "A body"),
        unit("doc2", "7", "C", "C body"),
    ];
    let prev = vec![
        entry("doc1", "100", "Old", "0.1"),
        entry("doc2", "7", "C", "0.2"),
    ];

    let (n_modified, stale, reused) = diff(input, Some(prev));

    assert_eq!(n_modified, 1);
    assert_eq!(stale.len(), 1);
    assert_eq!(stale[0].name, "doc1");
    assert_eq!(reused.len(), 1);
    assert_eq!(reused[0].name, "doc2");
}

#[test]
fn no_previous_cache_means_all_stale() {
    let input = vec![unit("doc1", "1", "A", "x"), unit("doc2", "2", "B", "y")];

    let (n_modified, stale, reused) = diff(input, None);

    assert_eq!(n_modified, 2);
    assert_eq!(stale.len(), 2);
    assert_eq!(reused.len(), 0);
}

#[test]
fn scenario_batch_sizes_ceil() {
    let plan = plan_batches(7, 3);

    assert_eq!(plan, vec![(0, 3), (3, 3), (6, 1)]);
}

#[test]
fn batches_cover_in_order() {
    let records: Vec<InputRow> =
        (0..7).map(|i| unit("d", "1", "s", &format!("body{}", i))).collect();
    let mut cycle = EmbeddingCycle::new(records, vec![entry("r", "1", "h", "0.5")], 3);

    let mut sent: Vec<String> = Vec::new();
    let mut all_rows: Vec<EmbeddingRow> = Vec::new();
    let mut batch_idx = 0;
    while let Some(bodies) = cycle.next_request() {
        let fake: Vec<String> = bodies.iter().map(|b| format!("emb:{}", b)).collect();
        sent.extend(bodies);
        let (rows, with_header) = cycle.apply_response(fake).unwrap();
        assert_eq!(with_header, batch_idx == 0);
        all_rows.extend(rows);
        batch_idx += 1;
    }

    assert_eq!(batch_idx, 3);
    let expected: Vec<String> = (0..7).map(|i| format!("body{}", i)).collect();
    assert_eq!(sent, expected);
    // batch rows stay aligned with their units, and the reusable entry
    // rides along with the first batch
    assert_eq!(all_rows.len(), 8);
    assert_eq!(all_rows[0].embedding, "emb:body0");
    assert_eq!(all_rows[3].name, "r");
    assert_eq!(all_rows[4].embedding, "emb:body3");
    assert_eq!(all_rows[7].embedding, "emb:body6");
}

#[test]
fn scenario_alignment_error_names_counts() {
    let records = vec![
        unit("d", "1", "s", "one"),
        unit("d", "1", "s", "two"),
        unit("d", "1", "s", "three"),
    ];
    let mut cycle = EmbeddingCycle::new(records, Vec::new(), 1);

    assert!(cycle.next_request().is_some());
    let err = cycle
        .apply_response(vec!["a".to_string(), "b".to_string()])
        .unwrap_err();

    assert_eq!(err.describe().as_str(), "Requested for 3 embeddings but got 2");
}

#[test]
fn empty_cycle_still_persists_reusable_entries() {
    let mut cycle = EmbeddingCycle::new(Vec::new(), vec![entry("d", "1", "h", "0.3")], 4);

    assert!(cycle.next_request().is_none());
    let (rows, with_header) = cycle.final_flush().unwrap();
    assert_eq!(rows.len(), 1);
    assert!(with_header);
    assert!(cycle.final_flush().is_none());
}

#[test]
fn cache_round_trips_through_csv() {
    let rows = vec![
        entry("plain.md", "100", "Intro", "0.25,-1.5,3"),
        entry("odd,name.md", " 7 ", "say \"hi\"", "1,2"),
        entry("multi.md", "8", "line\nbreak", ""),
    ];

    let text = embedding_rows_to_csv(&rows, true);
    let back = embedding_rows_from_csv(&text).unwrap();

    assert_eq!(back.len(), rows.len());
    for i in 0..rows.len() {
        assert_eq!(back[i].name, rows[i].name);
        assert_eq!(back[i].mtime, rows[i].mtime);
        assert_eq!(back[i].header, rows[i].header);
        assert_eq!(back[i].embedding, rows[i].embedding);
    }
}

#[test]
fn unit_file_round_trips_through_csv() {
    let rows = vec![unit("a.md", "1", "S", "body text"), unit("b.md", "2", "T", "x,y")];

    let text = input_rows_to_csv(&rows);
    let back = input_rows_from_csv(&text).unwrap();

    assert_eq!(back.len(), 2);
    assert_eq!(back[1].body, "x,y");
    assert_eq!(back[0].section, "S");
}

#[test]
fn empty_cache_file_reads_as_no_entries() {
    assert_eq!(embedding_rows_from_csv("").unwrap().len(), 0);
    let headed = embedding_rows_to_csv(&Vec::new(), true);
    assert_eq!(headed, "name,mtime,header,embedding\n");
    assert_eq!(embedding_rows_from_csv(&headed).unwrap().len(), 0);
}

#[test]
fn malformed_cache_is_an_error() {
    let err = embedding_rows_from_csv("name,mtime,header\nonly,three,fields").unwrap_err();
    assert_eq!(err.describe().as_str(), "Failed to deserialize embedding.csv");

    let err = embedding_rows_from_csv("wrong,header,row,here\na,b,c,d\n").unwrap_err();
    assert_eq!(err.describe().as_str(), "Failed to deserialize embedding.csv");

    let err = input_rows_from_csv("name,mtime,section,body\nunterminated,\"quote,x,y").unwrap_err();
    assert_eq!(err.describe().as_str(), "Failed to deserialize input.csv");
}

#[test]
fn ranking_orders_by_score_descending() {
    let rows = vec![
        entry("n0", "1", "h0", "e0"),
        entry("n1", "1", "h1", "e1"),
        entry("n2", "1", "h2", "e2"),
    ];
    let scores = vec![Some(10), Some(30), Some(20)];

    let ranked = rank_suggestions(&rows, &scores, 10).unwrap();

    assert_eq!(ranked.len(), 3);
    assert_eq!(ranked[0].name, "n1");
    assert_eq!(ranked[1].name, "n2");
    assert_eq!(ranked[2].name, "n0");
}

#[test]
fn ranking_truncates_to_k_and_keeps_ties_stable() {
    let rows = vec![
        entry("n0", "1", "h0", "e0"),
        entry("n1", "1", "h1", "e1"),
        entry("n2", "1", "h2", "e2"),
    ];
    let scores = vec![Some(5), Some(5), Some(9)];

    let ranked = rank_suggestions(&rows, &scores, 2).unwrap();

    assert_eq!(ranked.len(), 2);
    assert_eq!(ranked[0].name, "n2");
    // equal scores keep cache order
    assert_eq!(ranked[1].name, "n0");
}

#[test]
fn ranking_fails_on_undecodable_embedding() {
    let rows = vec![entry("n0", "1", "h0", "1,2"), entry("n1", "1", "h1", "bad")];
    let scores = vec![Some(3), None];

    let err = rank_suggestions(&rows, &scores, 10).unwrap_err();

    assert_eq!(
        err.describe().as_str(),
        "Failed to deserialize embedding for file: n1 and section: h1 with embedding: bad"
    );
}

#[test]
fn provider_kind_dispatch() {
    assert_eq!(SupportedAPIs::from_name("Ollama"), Some(SupportedAPIs::Ollama));
    assert_eq!(SupportedAPIs::from_name("OpenAI"), Some(SupportedAPIs::OpenAI));
    assert_eq!(SupportedAPIs::from_name("other"), None);
}

#[test]
fn embedding_input_carries_bodies_in_order() {
    let rows = vec![unit("a", "1", "s", "first"), unit("a", "1", "s", "second")];
    let input = EmbeddingInput::from_rows(&rows);

    assert_eq!(input.len(), 2);
    let EmbeddingInput::StringArray(v) = input;
    assert_eq!(v, vec!["first".to_string(), "second".to_string()]);
}

#[test]
fn decimal_rendering() {
    assert_eq!(usize_to_string(0), "0");
    assert_eq!(usize_to_string(7), "7");
    assert_eq!(usize_to_string(120), "120");
    assert_eq!(usize_to_string(98765), "98765");
}

#[test]
fn api_error_rendering() {
    let e = semantic_search::errors::ApiError {
        message: "quota exceeded".to_string(),
        kind: "rate_limit".to_string(),
        param: None,
        code: Some("429".to_string()),
    };

    assert_eq!(
        e.describe(),
        "Call to the provider failed with code: 429, message: quota exceeded, type: rate_limit, param: none"
    );
}
