//! The boolean query layer: evaluation against records, evaluation
//! against truth tables, end-to-end query scenarios, and the assignment
//! enumerator.

use vennbase::mime::MimeType;
use vennbase::query::{QueryNode, evaluate_record, evaluate, parse_query, PropositionType, VariablesPermutations};
use vennbase::tags::InvertedIndexMap;
use vennbase::vennbase::{Vennbase, VennbaseError};
use vennbase::VennError;

fn ident(name: &str) -> QueryNode {
    QueryNode::Identifier { name: name.to_string() }
}

#[test]
fn connectives_evaluate_classically() {
    let tags = InvertedIndexMap::new();
    let mime = "image/png";
    let id = "00010203-0405-0607-0809-0a0b0c0d0e0f";
    let t = QueryNode::Literal { value: true };
    let f = QueryNode::Literal { value: false };
    let and = QueryNode::And { left: Box::new(t), right: Box::new(f) };
    assert_eq!(evaluate_record(&and, mime, id, &tags), Ok(false));
    let or = QueryNode::Or {
        left: Box::new(QueryNode::Literal { value: true }),
        right: Box::new(QueryNode::Literal { value: false }),
    };
    assert_eq!(evaluate_record(&or, mime, id, &tags), Ok(true));
    let implies = QueryNode::Implies {
        left: Box::new(QueryNode::Literal { value: false }),
        right: Box::new(QueryNode::Literal { value: false }),
    };
    assert_eq!(evaluate_record(&implies, mime, id, &tags), Ok(true));
    let iff = QueryNode::IfAndOnlyIf {
        left: Box::new(QueryNode::Literal { value: false }),
        right: Box::new(QueryNode::Literal { value: false }),
    };
    assert_eq!(evaluate_record(&iff, mime, id, &tags), Ok(true));
    let nn = QueryNode::Not {
        operand: Box::new(QueryNode::Not {
            operand: Box::new(QueryNode::Literal { value: true }),
        }),
    };
    assert_eq!(evaluate_record(&nn, mime, id, &tags), Ok(true));
}

#[test]
fn identifiers_match_mime_id_and_tags() {
    let mut tags = InvertedIndexMap::new();
    let id = "00010203-0405-0607-0809-0a0b0c0d0e0f";
    tags.add_tag("anime", id);
    let mime = "image/png";
    assert_eq!(evaluate_record(&ident("mime:image/png"), mime, id, &tags), Ok(true));
    assert_eq!(evaluate_record(&ident("mime:video/mp4"), mime, id, &tags), Ok(false));
    assert_eq!(evaluate_record(&ident("mime:*"), mime, id, &tags), Ok(true));
    assert_eq!(evaluate_record(&ident("id:*"), mime, id, &tags), Ok(true));
    assert_eq!(
        evaluate_record(&ident(id.to_string().as_str()), mime, id, &tags),
        Err(VennError::InvalidExpression)
    );
    let id_query = format!("id:{}", id);
    assert_eq!(evaluate_record(&ident(&id_query), mime, id, &tags), Ok(true));
    assert_eq!(evaluate_record(&ident("tag:anime"), mime, id, &tags), Ok(true));
    assert_eq!(evaluate_record(&ident("tag:other"), mime, id, &tags), Ok(false));
    assert_eq!(evaluate_record(&ident("tag:*"), mime, id, &tags), Ok(true));
    assert_eq!(
        evaluate_record(&ident("mime:"), mime, id, &tags),
        Err(VennError::InvalidExpression)
    );
    assert_eq!(
        evaluate_record(&ident(":x"), mime, id, &tags),
        Err(VennError::InvalidExpression)
    );
    assert_eq!(
        evaluate_record(&ident("foo:bar"), mime, id, &tags),
        Err(VennError::InvalidExpression)
    );
}

#[test]
fn query_by_mime() {
    let mut db = Vennbase::new();
    let png = MimeType::from("image/png").unwrap();
    let mp4 = MimeType::from("video/mp4").unwrap();
    let saved_png = db.save_record(&png, b"p", vec![]).unwrap();
    let _saved_mp4 = db.save_record(&mp4, b"v", vec![]).unwrap();
    let hits = db.query_records("mime:image/png").unwrap();
    assert_eq!(hits.len(), 1);
    assert_eq!(hits[0].0.as_str(), "image/png");
    assert_eq!(hits[0].1, saved_png.id);
    let all = db.query_records("mime:*").unwrap();
    assert_eq!(all.len(), 2);
}

#[test]
fn tag_round_trip_queries() {
    let mut db = Vennbase::new();
    let mime = MimeType::from("text/plain").unwrap();
    let saved = db
        .save_record(&mime, b"data", vec!["alpha".to_string(), "beta".to_string()])
        .unwrap();
    let in_alpha = db.query_records("tag:alpha").unwrap();
    assert!(in_alpha.iter().any(|(_, id)| *id == saved.id));
    let not_gamma = db.query_records("!tag:gamma").unwrap();
    assert!(not_gamma.iter().any(|(_, id)| *id == saved.id));
    let both = db.query_records("tag:alpha && tag:beta").unwrap();
    assert!(both.iter().any(|(_, id)| *id == saved.id));
    let missing = db.query_records("tag:alpha && tag:gamma").unwrap();
    assert!(!missing.iter().any(|(_, id)| *id == saved.id));
}

#[test]
fn malformed_queries_fail_and_leave_the_store_usable() {
    let mut db = Vennbase::new();
    let mime = MimeType::from("image/png").unwrap();
    db.save_record(&mime, b"p", vec![]).unwrap();
    assert!(matches!(
        db.query_records("mime:"),
        Err(VennbaseError(VennError::InvalidExpression))
    ));
    assert!(matches!(
        db.query_records("foo:bar"),
        Err(VennbaseError(VennError::InvalidExpression))
    ));
    assert!(matches!(
        db.query_records("&& mime:*"),
        Err(VennbaseError(VennError::InvalidQuery))
    ));
    // a subsequent valid query still works
    assert_eq!(db.query_records("mime:*").unwrap().len(), 1);
}

#[test]
fn parser_builds_expected_trees() {
    let ast = parse_query("mime:image/png && !tag:anime").unwrap();
    let tags = InvertedIndexMap::new();
    let id = "00010203-0405-0607-0809-0a0b0c0d0e0f";
    assert_eq!(evaluate_record(&ast, "image/png", id, &tags), Ok(true));
    assert_eq!(evaluate_record(&ast, "video/mp4", id, &tags), Ok(false));
    assert!(parse_query("&&").is_none());
}

#[test]
fn table_evaluation_looks_atoms_up() {
    let table = vec![("a".to_string(), true), ("b".to_string(), false)];
    let and = QueryNode::And {
        left: Box::new(ident("a")),
        right: Box::new(ident("b")),
    };
    assert_eq!(evaluate(&and, &table), Ok(false));
    let or = QueryNode::Or {
        left: Box::new(ident("a")),
        right: Box::new(ident("b")),
    };
    assert_eq!(evaluate(&or, &table), Ok(true));
    assert_eq!(evaluate(&ident("missing"), &table), Err(()));
}

#[test]
fn permutations_enumerate_fickle_assignments() {
    let vars = vec![
        PropositionType::Fickle,
        PropositionType::Fixed(true),
        PropositionType::Fickle,
    ];
    let mut perms = VariablesPermutations::new(vars.as_slice());
    let mut seen = Vec::new();
    loop {
        match perms.next() {
            Some(v) => seen.push(v),
            None => break,
        }
    }
    assert_eq!(seen.len(), 4);
    assert_eq!(seen[0], vec![false, true, false]);
    assert_eq!(seen[1], vec![false, true, true]);
    assert_eq!(seen[2], vec![true, true, false]);
    assert_eq!(seen[3], vec![true, true, true]);
}
