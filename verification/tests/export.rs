use hifzsdk::export::{combined_document, meta_json, plan_json};
use hifzsdk::json::Json;
use hifzsdk::sdk::{build_plan, parse_quran};

fn member<'a>(doc: &'a Json, key: &str) -> Option<&'a Json> {
    match doc {
        Json::Object(m) => m.iter().find(|(k, _)| k == key).map(|(_, v)| v),
        _ => None,
    }
}

fn number(doc: Option<&Json>) -> Option<u64> {
    match doc {
        Some(Json::Number(n, _)) => *n,
        _ => None,
    }
}

const RAW: &str = r#"{"1":[{"chapter":1,"verse":1,"text":"a"},{"chapter":1,"verse":2}],"2":[{"chapter":2,"verse":1}],"meta":"old","scale":1.5}"#;

#[test]
fn combined_document_sets_meta_and_plan() {
    let chapters = parse_quran(RAW);
    let plan = build_plan(&chapters);
    let doc = combined_document(RAW, &chapters, &plan).unwrap();
    let meta = member(&doc, "meta").unwrap();
    match member(meta, "name") {
        Some(Json::Str(s)) => assert_eq!(s, "Moga Hifz Quran"),
        other => panic!("unexpected {:?}", other),
    }
    let sources = member(meta, "sources").unwrap();
    assert_eq!(number(member(sources, "chapter_count")), Some(2));
    assert_eq!(number(member(sources, "verse_count")), Some(3));
    let hifz = member(&doc, "hifz_plan").unwrap();
    assert_eq!(number(member(hifz, "total_days")), Some(2));
    assert_eq!(number(member(hifz, "verses_per_day")), Some(10));
    match member(hifz, "steps") {
        Some(Json::Array(steps)) => {
            assert_eq!(steps.len(), 2);
            assert_eq!(number(member(&steps[1], "day")), Some(2));
            match member(&steps[1], "sabqi_review") {
                Some(Json::Array(refs)) => {
                    assert_eq!(refs.len(), 2);
                    assert_eq!(number(member(&refs[1], "verse")), Some(2));
                }
                other => panic!("unexpected {:?}", other),
            }
        }
        other => panic!("unexpected {:?}", other),
    }
    // The base members stay: chapters as they were, the float with its text.
    match member(&doc, "scale") {
        Some(Json::Number(None, t)) => assert_eq!(t, "1.5"),
        other => panic!("unexpected {:?}", other),
    }
    match member(&doc, "1") {
        Some(Json::Array(a)) => assert_eq!(a.len(), 2),
        other => panic!("unexpected {:?}", other),
    }
    match &doc {
        Json::Object(m) => {
            assert_eq!(m.len(), 5);
            assert_eq!(m.iter().filter(|(k, _)| k == "meta").count(), 1);
        }
        other => panic!("unexpected {:?}", other),
    }
}

#[test]
fn combined_document_needs_an_object() {
    let chapters = parse_quran("[]");
    let plan = build_plan(&chapters);
    assert!(combined_document("[1, 2]", &chapters, &plan).is_none());
    assert!(combined_document("{ nope", &chapters, &plan).is_none());
}

#[test]
fn meta_and_plan_numbers_are_written_in_decimal() {
    let chapters = parse_quran(RAW);
    match member(&meta_json(&chapters), "sources").and_then(|s| member(s, "verse_count")) {
        Some(Json::Number(Some(3), t)) => assert_eq!(t, "3"),
        other => panic!("unexpected {:?}", other),
    }
    let plan = build_plan(&chapters);
    match member(&plan_json(&plan), "manzil_review_days") {
        Some(Json::Number(Some(15), t)) => assert_eq!(t, "15"),
        other => panic!("unexpected {:?}", other),
    }
}

#[test]
fn export_text_is_the_pretty_document() {
    let chapters = parse_quran(RAW);
    let plan = build_plan(&chapters);
    let text = hifzsdk::export::export_text(RAW, &chapters, &plan).unwrap();
    assert!(text.contains("\n  \"hifz_plan\": {"));
    let v: serde_json::Value = serde_json::from_str(&text).unwrap();
    assert_eq!(v["meta"]["name"], "Moga Hifz Quran");
    assert_eq!(v["meta"]["sources"]["verse_count"], 3);
    assert_eq!(v["hifz_plan"]["method"], "Sabqi -> Manzil");
    assert_eq!(v["hifz_plan"]["steps"][1]["sabqi_new"][0]["chapter"], 2);
    assert_eq!(v["scale"], 1.5);
    assert_eq!(v["1"][0]["text"], "a");
    assert!(hifzsdk::export::export_text("[]", &chapters, &plan).is_none());
}
