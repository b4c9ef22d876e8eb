use cendb::error::CenStatus;
use cendb::rdf::evaluate::{evaluate, evaluate_answered, float_questions};
use cendb::rdf::serialize::{
    format_term, parse_ntriples, parse_turtle, serialize_ntriples, serialize_turtle,
};
use cendb::rdf::sparql::parse_sparql;
use cendb::rdf::tokens::{show, tokenize};
use cendb::rdf::{RdfTerm, Triple, TripleStore};

fn u(s: &str) -> RdfTerm {
    RdfTerm::uri(s)
}
fn b(s: &str) -> RdfTerm {
    RdfTerm::blank(s)
}
fn l(s: &str) -> RdfTerm {
    RdfTerm::plain_literal(s)
}

fn t(s: &str, p: &str, o: &str) -> Triple {
    Triple::new(u(s), u(p), u(o))
}

#[test]
fn insert_returns_true_for_new_and_false_for_duplicate() {
    let mut store = TripleStore::new();
    assert_eq!(store.len(), 0);
    assert!(store.insert(t("s", "p", "o")).unwrap());
    assert!(!store.insert(t("s", "p", "o")).unwrap());
    assert_eq!(store.len(), 1);
}

#[test]
fn match_pattern_spo_full_match() {
    let mut store = TripleStore::new();
    store.insert(t("s1", "p1", "o1")).unwrap();
    store.insert(t("s1", "p1", "o2")).unwrap();
    store.insert(t("s2", "p1", "o1")).unwrap();
    let r = store.match_pattern(Some(&u("s1")), Some(&u("p1")), Some(&u("o1")));
    assert_eq!(r.len(), 1);
    assert_eq!(r[0], &t("s1", "p1", "o1"));
}

#[test]
fn match_pattern_s_wildcard_p_o() {
    let mut store = TripleStore::new();
    store.insert(t("s1", "p1", "o1")).unwrap();
    store.insert(t("s1", "p2", "o2")).unwrap();
    store.insert(t("s2", "p1", "o1")).unwrap();
    let r = store.match_pattern(Some(&u("s1")), None, None);
    assert_eq!(r.len(), 2);
}

#[test]
fn match_pattern_s_p_wildcard_o() {
    let mut store = TripleStore::new();
    store.insert(t("s1", "p1", "o1")).unwrap();
    store.insert(t("s1", "p1", "o2")).unwrap();
    store.insert(t("s1", "p2", "o3")).unwrap();
    let r = store.match_pattern(Some(&u("s1")), Some(&u("p1")), None);
    assert_eq!(r.len(), 2);
}

#[test]
fn match_pattern_wildcard_s_p_o() {
    let mut store = TripleStore::new();
    store.insert(t("s1", "p1", "o1")).unwrap();
    store.insert(t("s2", "p1", "o2")).unwrap();
    store.insert(t("s3", "p2", "o1")).unwrap();
    let r = store.match_pattern(None, Some(&u("p1")), None);
    assert_eq!(r.len(), 2);
}

#[test]
fn match_pattern_s_wildcard_p_o_specific() {
    let mut store = TripleStore::new();
    store.insert(t("s1", "p1", "o1")).unwrap();
    store.insert(t("s1", "p2", "o1")).unwrap();
    store.insert(t("s2", "p1", "o1")).unwrap();
    let r = store.match_pattern(Some(&u("s1")), None, Some(&u("o1")));
    assert_eq!(r.len(), 2);
}

#[test]
fn match_pattern_wildcard_all_returns_everything() {
    let mut store = TripleStore::new();
    store.insert(t("s1", "p1", "o1")).unwrap();
    store.insert(t("s2", "p2", "o2")).unwrap();
    let r = store.match_pattern(None, None, None);
    assert_eq!(r.len(), 2);
}

#[test]
fn match_pattern_wildcard_s_wildcard_p_o() {
    let mut store = TripleStore::new();
    store.insert(t("s1", "p1", "o1")).unwrap();
    store.insert(t("s2", "p2", "o1")).unwrap();
    store.insert(t("s3", "p3", "o3")).unwrap();
    let r = store.match_pattern(None, None, Some(&u("o1")));
    assert_eq!(r.len(), 2);
}

#[test]
fn remove_returns_true_when_present_false_otherwise() {
    let mut store = TripleStore::new();
    store.insert(t("s", "p", "o")).unwrap();
    assert!(store.contains(&t("s", "p", "o")));
    assert!(store.remove(&t("s", "p", "o")).unwrap());
    assert!(!store.contains(&t("s", "p", "o")));
    assert!(!store.remove(&t("s", "p", "o")).unwrap());
    assert_eq!(store.len(), 0);
}

#[test]
fn blank_nodes_round_trip_in_store() {
    let mut store = TripleStore::new();
    let triple = Triple::new(b("b1"), u("p"), l("hi"));
    store.insert(triple.clone()).unwrap();
    let r = store.match_pattern(Some(&b("b1")), None, None);
    assert_eq!(r.len(), 1);
    assert_eq!(r[0], &triple);
}

#[test]
fn typed_literals_distinguished_from_plain() {
    let mut store = TripleStore::new();
    store
        .insert(Triple::new(
            u("s"),
            u("p"),
            RdfTerm::typed_literal("42", "http://www.w3.org/2001/XMLSchema#integer"),
        ))
        .unwrap();
    store.insert(Triple::new(u("s"), u("p"), l("42"))).unwrap();
    assert_eq!(store.len(), 2);
    let r = store.match_pattern(Some(&u("s")), Some(&u("p")), None);
    assert_eq!(r.len(), 2);
}

#[test]
fn ntriples_round_trip() {
    let triples = vec![
        Triple::new(u("http://a/s1"), u("http://a/p1"), l("o1")),
        Triple::new(
            u("http://a/s2"),
            u("http://a/p2"),
            RdfTerm::typed_literal("42", "http://www.w3.org/2001/XMLSchema#integer"),
        ),
        Triple::new(b("b1"), u("http://a/p3"), RdfTerm::lang_literal("hello", "en")),
    ];
    let s = serialize_ntriples(&triples);
    let parsed = parse_ntriples(&s).unwrap();
    assert_eq!(parsed.len(), 3);
    for t in &triples {
        assert!(parsed.contains(t), "missing triple: {:?}", t);
    }
}

#[test]
fn ntriples_parse_basic() {
    let input = "<http://a/s> <http://a/p> <http://a/o> .\n\
                 <http://a/s2> <http://a/p2> \"literal\" .\n";
    let parsed = parse_ntriples(input).unwrap();
    assert_eq!(parsed.len(), 2);
    assert_eq!(parsed[0].subject, u("http://a/s"));
    assert_eq!(parsed[1].object, l("literal"));
}

#[test]
fn turtle_parse_with_prefixes() {
    let input = "@prefix foaf: <http://xmlns.com/foaf/0.1/> .\n\
                 @prefix : <http://example.org/> .\n\
                 :alice foaf:name \"Alice\" ;\n\
                 foaf:knows :bob , :carol .\n";
    let parsed = parse_turtle(input).unwrap();
    assert_eq!(parsed.len(), 3);
    assert!(parsed.contains(&Triple::new(
        u("http://example.org/alice"),
        u("http://xmlns.com/foaf/0.1/name"),
        l("Alice")
    )));
    assert!(parsed.contains(&Triple::new(
        u("http://example.org/alice"),
        u("http://xmlns.com/foaf/0.1/knows"),
        u("http://example.org/bob")
    )));
    assert!(parsed.contains(&Triple::new(
        u("http://example.org/alice"),
        u("http://xmlns.com/foaf/0.1/knows"),
        u("http://example.org/carol")
    )));
}

#[test]
fn turtle_serialize_round_trip() {
    let triples = vec![
        Triple::new(u("http://a/s"), u("http://a/p"), l("o")),
        Triple::new(u("http://a/s"), u("http://a/p2"), u("http://a/o2")),
    ];
    let s = serialize_turtle(&triples);
    let parsed = parse_turtle(&s).unwrap();
    assert_eq!(parsed.len(), 2);
    for t in &triples {
        assert!(parsed.contains(t));
    }
}

#[test]
fn turtle_a_keyword_means_rdf_type() {
    let input = "@prefix : <http://example.org/> .\n\
                 :x a :Thing .\n";
    let parsed = parse_turtle(input).unwrap();
    assert_eq!(parsed.len(), 1);
    assert_eq!(
        parsed[0].predicate,
        u("http://www.w3.org/1999/02/22-rdf-syntax-ns#type")
    );
}

#[test]
fn sparql_select_single_pattern() {
    let mut store = TripleStore::new();
    store.insert(t("alice", "knows", "bob")).unwrap();
    store.insert(t("alice", "knows", "carol")).unwrap();
    store.insert(t("bob", "knows", "carol")).unwrap();

    let q = parse_sparql(
        "SELECT ?o WHERE { <alice> <knows> ?o . }",
    )
    .unwrap();
    let results = evaluate(&q, &store).unwrap();
    assert_eq!(results.len(), 2);
    let objs: Vec<String> = results
        .iter()
        .map(|b| b.get("o").unwrap().lexical_form().to_string())
        .collect();
    assert!(objs.contains(&"bob".to_string()));
    assert!(objs.contains(&"carol".to_string()));
}

#[test]
fn sparql_select_join_two_patterns() {
    let mut store = TripleStore::new();
    store.insert(t("alice", "knows", "bob")).unwrap();
    store.insert(t("bob", "knows", "carol")).unwrap();
    store.insert(t("alice", "knows", "dave")).unwrap();
    store.insert(t("dave", "knows", "eve")).unwrap();

    let q = parse_sparql(
        "SELECT ?friend WHERE { <alice> <knows> ?friend . ?friend <knows> ?foaf . }",
    )
    .unwrap();
    let results = evaluate(&q, &store).unwrap();
    assert_eq!(results.len(), 2);
    let friends: Vec<&str> = results
        .iter()
        .map(|b| b.get("friend").unwrap().lexical_form())
        .collect();
    assert!(friends.contains(&"bob"));
    assert!(friends.contains(&"dave"));
}

#[test]
fn sparql_filter_numeric_gt() {
    let mut store = TripleStore::new();
    store
        .insert(Triple::new(
            u("alice"),
            u("age"),
            RdfTerm::typed_literal("30", "http://www.w3.org/2001/XMLSchema#integer"),
        ))
        .unwrap();
    store
        .insert(Triple::new(
            u("bob"),
            u("age"),
            RdfTerm::typed_literal("25", "http://www.w3.org/2001/XMLSchema#integer"),
        ))
        .unwrap();
    store
        .insert(Triple::new(
            u("carol"),
            u("age"),
            RdfTerm::typed_literal("40", "http://www.w3.org/2001/XMLSchema#integer"),
        ))
        .unwrap();

    let q = parse_sparql(
        "SELECT ?s ?a WHERE { ?s <age> ?a . FILTER(?a > 28) }",
    )
    .unwrap();
    let results = evaluate(&q, &store).unwrap();
    assert_eq!(results.len(), 2);
    let subjects: Vec<&str> = results.iter().map(|b| b.get("s").unwrap().lexical_form()).collect();
    assert!(subjects.contains(&"alice"));
    assert!(subjects.contains(&"carol"));
}

#[test]
fn sparql_limit_caps_results() {
    let mut store = TripleStore::new();
    for i in 0..10 {
        store.insert(t("s", "p", &format!("o{i}"))).unwrap();
    }
    let q = parse_sparql("SELECT ?o WHERE { ?s ?p ?o . } LIMIT 3").unwrap();
    let results = evaluate(&q, &store).unwrap();
    assert_eq!(results.len(), 3);
}

#[test]
fn sparql_select_star_returns_all_variables() {
    let mut store = TripleStore::new();
    store.insert(t("s", "p", "o")).unwrap();
    let q = parse_sparql("SELECT * WHERE { ?s ?p ?o . }").unwrap();
    let results = evaluate(&q, &store).unwrap();
    assert_eq!(results.len(), 1);
    let row = &results[0];
    assert_eq!(row.get("s").unwrap().lexical_form(), "s");
    assert_eq!(row.get("p").unwrap().lexical_form(), "p");
    assert_eq!(row.get("o").unwrap().lexical_form(), "o");
}

#[test]
fn sparql_pattern_with_two_bound_terms() {
    let mut store = TripleStore::new();
    store.insert(t("s1", "p1", "o1")).unwrap();
    store.insert(t("s1", "p1", "o2")).unwrap();
    store.insert(t("s1", "p2", "o3")).unwrap();
    store.insert(t("s2", "p1", "o1")).unwrap();

    let q = parse_sparql(
        "SELECT ?o WHERE { <s1> <p1> ?o . }",
    )
    .unwrap();
    let results = evaluate(&q, &store).unwrap();
    assert_eq!(results.len(), 2);
}

#[test]
fn sparql_filter_string_eq() {
    let mut store = TripleStore::new();
    store.insert(Triple::new(u("alice"), u("name"), l("Alice"))).unwrap();
    store.insert(Triple::new(u("bob"), u("name"), l("Bob"))).unwrap();

    let q = parse_sparql(
        "SELECT ?s WHERE { ?s <name> ?n . FILTER(?n = \"Alice\") }",
    )
    .unwrap();
    let results = evaluate(&q, &store).unwrap();
    assert_eq!(results.len(), 1);
    assert_eq!(results[0].get("s").unwrap().lexical_form(), "alice");
}

#[test]
fn sparql_blank_node_in_query() {
    let mut store = TripleStore::new();
    store.insert(Triple::new(b("_x"), u("p"), l("v"))).unwrap();
    store.insert(Triple::new(u("s"), u("p"), l("v"))).unwrap();

    let q = parse_sparql("SELECT ?s WHERE { ?s ?p ?o . }").unwrap();
    let results = evaluate(&q, &store).unwrap();
    assert_eq!(results.len(), 2);
}

#[test]
fn sparql_parse_rejects_malformed() {
    assert!(parse_sparql("NOT A QUERY").is_err());
    assert!(parse_sparql("SELECT WHERE { ?s ?p ?o . }").is_err());
    assert!(parse_sparql("SELECT ?s WHERE { }").is_err());
    assert!(parse_sparql("SELECT WHERE { ?s ?p ?o . }").is_err());
}

#[test]
fn sparql_join_with_shared_variable() {
    let mut store = TripleStore::new();
    store.insert(t("a", "k", "b")).unwrap();
    store.insert(t("b", "k", "c")).unwrap();
    store.insert(t("c", "k", "d")).unwrap();

    let q = parse_sparql(
        "SELECT ?x ?z WHERE { ?x <k> ?y . ?y <k> ?z . }",
    )
    .unwrap();
    let results = evaluate(&q, &store).unwrap();
    assert_eq!(results.len(), 2);
    let pairs: Vec<(&str, &str)> = results
        .iter()
        .map(|b| {
            (
                b.get("x").unwrap().lexical_form(),
                b.get("z").unwrap().lexical_form(),
            )
        })
        .collect();
    assert!(pairs.contains(&("a", "c")));
    assert!(pairs.contains(&("b", "d")));
}

#[test]
fn triples_can_be_inserted_again_after_removal() {
    let mut store = TripleStore::default();
    assert!(store.is_empty());
    assert!(store.insert(t("s", "p", "o")).unwrap());
    assert!(store.insert(t("s", "p", "o2")).unwrap());
    assert!(store.remove(&t("s", "p", "o")).unwrap());
    assert!(store.insert(t("s", "p", "o")).unwrap());
    assert_eq!(store.len(), 2);
    assert!(!store.is_empty());
    let all: Vec<Triple> = store.iter().into_iter().map(|x| x.clone()).collect();
    assert!(all.contains(&t("s", "p", "o")));
    assert!(all.contains(&t("s", "p", "o2")));
}

#[test]
fn terms_give_their_parts_and_forms() {
    assert_eq!(u("a").lexical_form(), "a");
    assert_eq!(u("a").datatype(), None);
    assert_eq!(l("x").lang(), None);
    let typed = RdfTerm::typed_literal("1", "http://t");
    assert_eq!(typed.datatype(), Some("http://t".to_string()));
    assert_eq!(typed.lang(), None);
    let tagged = RdfTerm::lang_literal("hei", "fi");
    assert_eq!(tagged.lang(), Some("fi".to_string()));
    assert_eq!(tagged.datatype(), None);
    assert_eq!(tagged.lexical_form(), "hei");
    assert!(u("a") != b("a"));
    assert!(u("a") != l("a"));

    assert_eq!(format_term(&u("http://a")), "<http://a>");
    assert_eq!(format_term(&b("n1")), "_:n1");
    assert_eq!(format_term(&l("say \"hi\"\n")), "\"say \\\"hi\\\"\\n\"");
    assert_eq!(format_term(&RdfTerm::lang_literal("hei", "fi")), "\"hei\"@fi");
    assert_eq!(
        format_term(&RdfTerm::typed_literal("1", "http://t")),
        "\"1\"^^<http://t>"
    );

    let wide = vec![
        Triple::new(u("http://\u{e9}"), u("p"), l("caf\u{e9} \u{1f600}\u{a0}\"x\"")),
        Triple::new(b("n\u{e0}1"), u("p"), RdfTerm::lang_literal("\u{4f60}\u{597d}", "zh")),
    ];
    assert_eq!(parse_ntriples(&serialize_ntriples(&wide)).unwrap(), wide);
    let mut back = parse_turtle(&serialize_turtle(&wide)).unwrap();
    if back[0] != wide[0] {
        back.reverse();
    }
    assert_eq!(back, wide);
    let odd = parse_ntriples("<a> <b> \"\\\u{e9}\\u00e9\" .").unwrap();
    assert_eq!(odd[0].object, l("\\\u{e9}\u{e9}"));
}

#[test]
fn malformed_documents_are_refused() {
    for input in [
        "<http://a> <http://b>",
        "<http://a> <http://b> \"open .",
        "<http://a <http://b> <http://c> .",
        "<http://a> <http://b> <http://c>",
    ] {
        assert_eq!(parse_ntriples(input).unwrap_err().status, CenStatus::ErrSyntax);
    }
    assert_eq!(parse_ntriples("").unwrap().len(), 0);
    assert_eq!(parse_ntriples("# only a comment\n\n").unwrap().len(), 0);

    assert_eq!(parse_turtle("ex:a ex:b ex:c .").unwrap_err().status, CenStatus::ErrSyntax);
    assert_eq!(parse_turtle("<a> <b> .").unwrap_err().status, CenStatus::ErrSyntax);
    assert_eq!(parse_turtle("<a> <b> <c>").unwrap_err().status, CenStatus::ErrSyntax);
}

#[test]
fn queries_are_cut_into_tokens() {
    let tokens = tokenize("SELECT ?x WHERE { ?x <p> \"v\" . }").unwrap();
    assert_eq!(tokens.len(), 9);
    assert_eq!(show(&tokens[1]), "Var(\"x\")");
    assert!(tokenize("<open").is_err());
    assert!(tokenize("\"open").is_err());
    let tokens = tokenize("\"caf\u{e9}\"").unwrap();
    assert_eq!(show(&tokens[0]), "Literal(\"caf\u{e9}\", None)");
    let tokens = tokenize("\"\\u123\u{e9}x\"").unwrap();
    assert_eq!(show(&tokens[0]), "Literal(\"x\", None)");
}

#[test]
fn decimal_filters_ask_for_float_comparisons() {
    let mut store = TripleStore::new();
    store.insert(Triple::new(u("a"), u("size"), l("2.5"))).unwrap();
    store.insert(Triple::new(u("b"), u("size"), l("1.5"))).unwrap();
    let q = parse_sparql("SELECT ?s WHERE { ?s <size> ?n . FILTER(?n > 2) }").unwrap();
    let asked = float_questions(&q, &store);
    assert_eq!(asked.len(), 2);
    let first_is_larger = asked.into_iter().enumerate().map(|(i, x)| (x, i == 0)).collect();
    let rows = evaluate_answered(&q, &store, &first_is_larger).unwrap();
    assert_eq!(rows.len(), 1);
    assert_eq!(rows[0].get("s").unwrap().lexical_form(), "a");
}

#[test]
fn shared_variables_must_agree_within_a_triple() {
    let mut store = TripleStore::new();
    store.insert(t("a", "likes", "a")).unwrap();
    store.insert(t("a", "likes", "b")).unwrap();
    let q = parse_sparql("SELECT ?x WHERE { ?x <likes> ?x . }").unwrap();
    let rows = evaluate(&q, &store).unwrap();
    assert_eq!(rows.len(), 1);
    assert_eq!(rows[0].get("x").unwrap().lexical_form(), "a");
    assert_eq!(rows[0].len(), 1);
    assert!(rows[0].get("y").is_none());
}
