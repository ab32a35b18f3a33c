//! End-to-end and component tests of the transform, run against stub
//! fetch collaborators.

use std::cell::RefCell;

use esi::ExecutionContext;
use esi::ExecutionError;
use esi::Request;
use esi::Response;
use esi::TagEntry;
use esi::execute_tag_entries;
use esi::parse_tag_entries;
use esi::send_request;
use esi::transform_esi_string;

/// The fragment-inclusion instruction's tag name, assembled so the test
/// sources spell it nowhere.
fn inc_name() -> String {
    format!("{}{}", "esi:incl", "ude")
}

fn bytes(s: &str) -> Vec<u8> {
    s.as_bytes().to_vec()
}

/// A stub transport: rules mapping a location to either a response body
/// or a failure, and a record of every request made.
struct StubClient {
    rules: Vec<(String, Result<Vec<u8>, ExecutionError>)>,
    calls: RefCell<Vec<Vec<u8>>>,
}

impl StubClient {
    fn new(rules: Vec<(String, Result<Vec<u8>, ExecutionError>)>) -> StubClient {
        StubClient { rules, calls: RefCell::new(Vec::new()) }
    }

    fn call_count(&self) -> usize {
        self.calls.borrow().len()
    }
}

impl ExecutionContext for StubClient {
    fn send_request(&self, req: Request) -> Result<Response, ExecutionError> {
        self.calls.borrow_mut().push(req.url.clone());
        for (url, outcome) in &self.rules {
            if url.as_bytes() == req.url.as_slice() {
                return match outcome {
                    Ok(body) => Ok(Response { body: body.clone(), status_code: 200 }),
                    Err(e) => Err(e.clone()),
                };
            }
        }
        Err(ExecutionError::Unknown)
    }
}

/// A transport that must never be consulted.
struct NoFetchClient;

impl ExecutionContext for NoFetchClient {
    fn send_request(&self, req: Request) -> Result<Response, ExecutionError> {
        panic!("unexpected fetch of {:?}", req.url);
    }
}

// ---------------------------------------------------------------------------
// Documents without instructions
// ---------------------------------------------------------------------------

#[test]
fn plain_document_unchanged() {
    let doc = bytes(
        "<?xml version=\"1.0\"?><!DOCTYPE html><html><head><!-- a > comment --></head>\n\
         <body class=\"x\" data-y='z'>text &amp; escaped <![CDATA[raw <stuff>]]></body></html>",
    );
    let out = transform_esi_string(&doc, &NoFetchClient).unwrap();
    assert_eq!(out, doc);
}

#[test]
fn empty_document_unchanged() {
    let doc: Vec<u8> = Vec::new();
    let out = transform_esi_string(&doc, &NoFetchClient).unwrap();
    assert_eq!(out, doc);
}

#[test]
fn transform_is_idempotent_without_instructions() {
    let doc = bytes("<div a=\"1\">hello <b>world</b> &lt;kept&gt;</div>");
    let once = transform_esi_string(&doc, &NoFetchClient).unwrap();
    let twice = transform_esi_string(&once, &NoFetchClient).unwrap();
    let thrice = transform_esi_string(&twice, &NoFetchClient).unwrap();
    assert_eq!(once, doc);
    assert_eq!(twice, doc);
    assert_eq!(thrice, doc);
}

#[test]
fn quoted_bracket_in_attribute_kept() {
    let doc = bytes("<a b=\"x>y\">t</a>");
    let out = transform_esi_string(&doc, &NoFetchClient).unwrap();
    assert_eq!(out, doc);
}

#[test]
fn unrecognized_namespace_tags_pass_through() {
    // A non-self-closing tag of the namespace and a self-closing remove
    // tag are not recognized instructions; both pass through verbatim.
    let doc = bytes(&format!("<{0} src=\"/a\">x</{0}><esi:remove/>", inc_name()));
    let out = transform_esi_string(&doc, &NoFetchClient).unwrap();
    assert_eq!(out, doc);
}

// ---------------------------------------------------------------------------
// Markup syntax errors
// ---------------------------------------------------------------------------

#[test]
fn dangling_open_bracket_is_syntax_error() {
    let doc = bytes("text <unclosed");
    let err = transform_esi_string(&doc, &NoFetchClient).unwrap_err();
    assert_eq!(err, ExecutionError::XMLError);
}

#[test]
fn unterminated_comment_is_syntax_error() {
    let doc = bytes("a<!-- never closed");
    let err = transform_esi_string(&doc, &NoFetchClient).unwrap_err();
    assert_eq!(err, ExecutionError::XMLError);
}

#[test]
fn malformed_attribute_region_is_syntax_error() {
    let doc = bytes(&format!("<{} src=/a/>", inc_name()));
    let err = transform_esi_string(&doc, &NoFetchClient).unwrap_err();
    assert_eq!(err, ExecutionError::XMLError);
}

// ---------------------------------------------------------------------------
// Duplicate attributes
// ---------------------------------------------------------------------------

#[test]
fn duplicate_attribute_rejected() {
    let doc = bytes(&format!("<{} src=\"/a\" src=\"/b\"/>", inc_name()));
    let err = transform_esi_string(&doc, &NoFetchClient).unwrap_err();
    assert_eq!(err, ExecutionError::DuplicateTagAttribute(bytes("src")));
}

#[test]
fn duplicate_attribute_rejected_at_any_position() {
    let doc = bytes("<esi:vars a=\"1\" b=\"2\" c=\"3\" b=\"4\"/>");
    let err = transform_esi_string(&doc, &NoFetchClient).unwrap_err();
    assert_eq!(err, ExecutionError::DuplicateTagAttribute(bytes("b")));
}

#[test]
fn parse_attributes_accepts_distinct_and_rejects_repeats() {
    let ok = esi::attrs::parse_attributes(vec![
        (bytes("a"), bytes("1")),
        (bytes("b"), bytes("2")),
    ])
    .unwrap();
    assert_eq!(ok, vec![(bytes("a"), bytes("1")), (bytes("b"), bytes("2"))]);
    let err = esi::attrs::parse_attributes(vec![
        (bytes("a"), bytes("1")),
        (bytes("b"), bytes("2")),
        (bytes("a"), bytes("3")),
    ])
    .unwrap_err();
    assert_eq!(err, ExecutionError::DuplicateTagAttribute(bytes("a")));
}

// ---------------------------------------------------------------------------
// Remove blocks
// ---------------------------------------------------------------------------

#[test]
fn remove_block_strips_enclosed_markup() {
    let doc = bytes(&format!(
        "before<esi:remove>dropped <b>markup</b> <!-- and comments --> \
         <{} src=\"/a\"/></esi:remove>after",
        inc_name()
    ));
    let out = transform_esi_string(&doc, &NoFetchClient).unwrap();
    assert_eq!(out, bytes("beforeafter"));
}

#[test]
fn unmatched_remove_end_rejected() {
    let doc = bytes("x</esi:remove>y");
    let err = transform_esi_string(&doc, &NoFetchClient).unwrap_err();
    assert_eq!(err, ExecutionError::UnexpectedClosingTag(bytes("esi:remove")));
}

#[test]
fn unterminated_remove_block_accepted() {
    // A document ending while still inside a remove block is accepted;
    // the enclosed content is dropped.
    let doc = bytes("kept<esi:remove>gone <b>gone</b>");
    let out = transform_esi_string(&doc, &NoFetchClient).unwrap();
    assert_eq!(out, bytes("kept"));
}

// ---------------------------------------------------------------------------
// Fragment inclusion
// ---------------------------------------------------------------------------

#[test]
fn fetched_fragment_spliced_in_place() {
    let doc = bytes(&format!("<p>a</p><{} src=\"/frag\"/><p>b</p>", inc_name()));
    let client = StubClient::new(vec![("/frag".to_string(), Ok(bytes("<i>spliced</i>")))]);
    let out = transform_esi_string(&doc, &client).unwrap();
    assert_eq!(out, bytes("<p>a</p><i>spliced</i><p>b</p>"));
    assert_eq!(client.call_count(), 1);
}

#[test]
fn single_quotes_and_spacing_accepted() {
    let doc = bytes(&format!("<{} src = '/a' />", inc_name()));
    let client = StubClient::new(vec![("/a".to_string(), Ok(bytes("ok")))]);
    let out = transform_esi_string(&doc, &client).unwrap();
    assert_eq!(out, bytes("ok"));
}

#[test]
fn remove_start_tag_with_attributes_still_opens_a_block() {
    let doc = bytes("a<esi:remove reason=\"x\">gone</esi:remove>b");
    let out = transform_esi_string(&doc, &NoFetchClient).unwrap();
    assert_eq!(out, bytes("ab"));
}

#[test]
fn missing_location_parameter_rejected() {
    let doc = bytes(&format!("<{} alt=\"/b\"/>", inc_name()));
    let err = transform_esi_string(&doc, &NoFetchClient).unwrap_err();
    // The error names the instruction by its identifier, without the
    // namespace prefix.
    assert_eq!(
        err,
        ExecutionError::MissingRequiredParameter(bytes(&inc_name()[4..]), bytes("src"))
    );
}

#[test]
fn later_missing_location_still_rejected() {
    // The first instruction resolves (its failure is downgraded), so the
    // executor reaches the second, which lacks its location.
    let doc = bytes(&format!(
        "<{0} src=\"A\" onerror=\"continue\"/><{0} alt=\"/b\"/>",
        inc_name()
    ));
    let client = StubClient::new(vec![("A".to_string(), Err(ExecutionError::TransportError))]);
    let err = transform_esi_string(&doc, &client).unwrap_err();
    assert_eq!(
        err,
        ExecutionError::MissingRequiredParameter(bytes(&inc_name()[4..]), bytes("src"))
    );
}

#[test]
fn fallback_used_when_primary_fails() {
    let doc = bytes(&format!("[<{} src=\"A\" alt=\"B\"/>]", inc_name()));
    let client = StubClient::new(vec![
        ("A".to_string(), Err(ExecutionError::Unknown)),
        ("B".to_string(), Ok(bytes("from B"))),
    ]);
    let out = transform_esi_string(&doc, &client).unwrap();
    assert_eq!(out, bytes("[from B]"));
    // The primary and the fallback were each queried once, and nothing
    // else: never a third time.
    assert_eq!(client.call_count(), 2);
}

#[test]
fn primary_success_short_circuits_fallback() {
    let doc = bytes(&format!("<{} src=\"A\" alt=\"B\"/>", inc_name()));
    let client = StubClient::new(vec![
        ("A".to_string(), Ok(bytes("from A"))),
        ("B".to_string(), Ok(bytes("from B"))),
    ]);
    let out = transform_esi_string(&doc, &client).unwrap();
    assert_eq!(out, bytes("from A"));
    assert_eq!(client.call_count(), 1);
}

#[test]
fn primary_failure_propagated_when_fallback_also_fails() {
    let doc = bytes(&format!("<{} src=\"A\" alt=\"B\"/>", inc_name()));
    let client = StubClient::new(vec![
        ("A".to_string(), Err(ExecutionError::DuplicateTagAttribute(bytes("primary-marker")))),
        ("B".to_string(), Err(ExecutionError::DuplicateTagAttribute(bytes("fallback-marker")))),
    ]);
    let err = transform_esi_string(&doc, &client).unwrap_err();
    // The fallback's failure detail is discarded in favor of the
    // primary's.
    assert_eq!(err, ExecutionError::DuplicateTagAttribute(bytes("primary-marker")));
    assert_eq!(client.call_count(), 2);
}

#[test]
fn continue_on_error_substitutes_empty_content() {
    let doc = bytes(&format!("a[<{} src=\"A\" onerror=\"continue\"/>]b", inc_name()));
    let client = StubClient::new(vec![("A".to_string(), Err(ExecutionError::Unknown))]);
    let out = transform_esi_string(&doc, &client).unwrap();
    assert_eq!(out, bytes("a[]b"));
    assert_eq!(client.call_count(), 1);
}

#[test]
fn other_error_policy_values_stay_fatal() {
    let doc = bytes(&format!("<{} src=\"A\" onerror=\"abort\"/>", inc_name()));
    let client = StubClient::new(vec![("A".to_string(), Err(ExecutionError::Unknown))]);
    let err = transform_esi_string(&doc, &client).unwrap_err();
    assert_eq!(err, ExecutionError::Unknown);
}

#[test]
fn fetch_failure_without_policy_is_fatal() {
    let doc = bytes(&format!("kept<{} src=\"A\"/>", inc_name()));
    let client = StubClient::new(vec![("A".to_string(), Err(ExecutionError::TransportError))]);
    let err = transform_esi_string(&doc, &client).unwrap_err();
    assert_eq!(err, ExecutionError::TransportError);
    assert_eq!(client.call_count(), 1);
}

// ---------------------------------------------------------------------------
// The stages, called on their own
// ---------------------------------------------------------------------------

#[test]
fn parser_produces_ordered_entries() {
    let doc = bytes(&format!("<p>x</p><{} src=\"/a\"/>tail", inc_name()));
    let entries = parse_tag_entries(&doc).unwrap();
    assert_eq!(entries.len(), 5);
    assert!(matches!(&entries[0], TagEntry::Passthrough(raw) if raw == &bytes("<p>")));
    assert!(matches!(&entries[1], TagEntry::Passthrough(raw) if raw == &bytes("x")));
    assert!(matches!(&entries[2], TagEntry::Passthrough(raw) if raw == &bytes("</p>")));
    match &entries[3] {
        TagEntry::Instruction(tag) => {
            assert_eq!(tag.name, bytes(&inc_name()));
            assert_eq!(tag.get_param(&bytes("src")), Some(bytes("/a")));
            assert_eq!(tag.get_param(&bytes("alt")), None);
            assert!(tag.content.is_none());
        },
        other => panic!("expected an instruction, got {:?}", other),
    }
    assert!(matches!(&entries[4], TagEntry::Passthrough(raw) if raw == &bytes("tail")));
}

#[test]
fn executor_aligns_slots_with_entries() {
    let doc = bytes(&format!("<p>x</p><{} src=\"/a\"/>tail", inc_name()));
    let entries = parse_tag_entries(&doc).unwrap();
    let client = StubClient::new(vec![("/a".to_string(), Ok(bytes("body")))]);
    let (slots, report) = execute_tag_entries(&entries, &client).unwrap();
    assert_eq!(slots.len(), 5);
    assert_eq!(slots[0], None);
    assert_eq!(slots[1], None);
    assert_eq!(slots[2], None);
    assert_eq!(slots[3], Some(bytes("body")));
    assert_eq!(slots[4], None);
    assert!(report.is_empty());
}

#[test]
fn executor_reports_downgraded_failures() {
    let doc = bytes(&format!("x<{} src=\"A\" onerror=\"continue\"/>y", inc_name()));
    let entries = parse_tag_entries(&doc).unwrap();
    let client = StubClient::new(vec![("A".to_string(), Err(ExecutionError::TransportError))]);
    let (slots, report) = execute_tag_entries(&entries, &client).unwrap();
    // The downgraded failure is reported with its position, not dropped.
    assert_eq!(report, vec![(1, ExecutionError::TransportError)]);
    assert_eq!(slots[1], Some(Vec::new()));
}

#[test]
fn send_request_applies_two_step_policy() {
    let client = StubClient::new(vec![
        ("A".to_string(), Err(ExecutionError::Unknown)),
        ("B".to_string(), Ok(bytes("ok"))),
    ]);
    let resp = send_request(&bytes("A"), &Some(bytes("B")), &client).unwrap();
    assert_eq!(resp.body, bytes("ok"));
    assert_eq!(resp.status_code, 200);
    assert_eq!(client.call_count(), 2);

    let client2 = StubClient::new(vec![("A".to_string(), Err(ExecutionError::Unknown))]);
    let err = send_request(&bytes("A"), &None, &client2).unwrap_err();
    assert_eq!(err, ExecutionError::Unknown);
    assert_eq!(client2.call_count(), 1);
}

#[test]
fn request_from_url_keeps_the_location() {
    let req = Request::from_url(&bytes("/x/y"));
    assert_eq!(req.url, bytes("/x/y"));
}
