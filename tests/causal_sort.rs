use ssb_causal_sort::{causal_sort, extract_references, parse_message_id, same_id, CausalSortError, MessageId, StructuredValue};

fn id(text: &str) -> MessageId {
    parse_message_id(text).unwrap()
}

fn text(s: &str) -> StructuredValue {
    StructuredValue::Text(s.to_string())
}

fn mapping(entries: Vec<(&str, StructuredValue)>) -> StructuredValue {
    StructuredValue::Mapping(entries.into_iter().map(|(k, v)| (k.to_string(), v)).collect())
}

fn root_body() -> StructuredValue {
    mapping(vec![
        (
            "nested",
            mapping(vec![
                (
                    "arry",
                    StructuredValue::Sequence(vec![
                        text("%3AfrBOK7pZikWM6aupei3PuE5ghRtFM44nrsX0FuBWY=.sha256"),
                        text("%4AfrBOK7pZikWM6aupei3PuE5ghRtFM44nrsX0FuBWY=.sha256"),
                    ]),
                ),
                ("previous", text("%2AfrBOK7pZikWM6aupei3PuE5ghRtFM44nrsX0FuBWY=.sha256")),
            ]),
        ),
        ("previous", text("%1AfrBOK7pZikWM6aupei3PuE5ghRtFM44nrsX0FuBWY=.sha256")),
    ])
}

const ROOT: &str = "%rootBOK7pZikWM6aupei3PuE5ghRtFM44nrsX0FuBWY=.sha256";
const REPLY1: &str = "%reply1K7pZikWM6aupei3PuE5ghRtFM44nrsX0FuBWY=.sha256";
const REPLY2: &str = "%reply2K7pZikWM6aupei3PuE5ghRtFM44nrsX0FuBWY=.sha256";
const ORPHAN: &str = "%orphanK7pZikWM6aupei3PuE5ghRtFM44nrsX0FuBWY=.sha256";

#[test]
fn it_works() {
    let k1 = id(ROOT);
    let v1 = root_body();
    let k2 = id(REPLY1);
    let v2 = mapping(vec![("root", text(ROOT))]);
    let k3 = id(REPLY2);
    let v3 = mapping(vec![("previous", text(REPLY1)), ("root", text(ROOT))]);

    let unsorted = [(k2, 2, v2), (k1, 1, v1), (k3, 3, v3)];
    let sorted = causal_sort(&unsorted[..]).unwrap();

    assert_eq!(sorted.as_slice(), [3, 2, 1])
}

#[test]
fn it_works_with_orphaned_messages() {
    let k1 = id(ROOT);
    let v1 = root_body();
    let k2 = id(REPLY1);
    let v2 = mapping(vec![("root", text(ROOT))]);
    let k3 = id(ORPHAN);
    let v3 = mapping(vec![]);

    let unsorted = [(k2, 2, v2), (k3, 3, v3), (k1, 1, v1)];
    let sorted = causal_sort(&unsorted[..]).unwrap();

    assert_eq!(sorted.as_slice(), [3, 2, 1])
}

#[test]
fn find_all_links_works() {
    let value = mapping(vec![
        ("previous", text("%1AfrBOK7pZikWM6aupei3PuE5ghRtFM44nrsX0FuBWY=.sha256")),
        (
            "nested",
            mapping(vec![
                ("previous", text("%2AfrBOK7pZikWM6aupei3PuE5ghRtFM44nrsX0FuBWY=.sha256")),
                (
                    "arry",
                    StructuredValue::Sequence(vec![
                        text("%3AfrBOK7pZikWM6aupei3PuE5ghRtFM44nrsX0FuBWY=.sha256"),
                        text("%4AfrBOK7pZikWM6aupei3PuE5ghRtFM44nrsX0FuBWY=.sha256"),
                    ]),
                ),
            ]),
        ),
    ]);

    let keys = extract_references(&value);
    assert_eq!(keys.len(), 4);
}

#[test]
fn reply_chain_sorts_newest_first() {
    let root = (id(ROOT), 1, mapping(vec![]));
    let reply1 = (id(REPLY1), 2, mapping(vec![("root", text(ROOT))]));
    let reply2 = (id(REPLY2), 3, mapping(vec![("root", text(ROOT)), ("previous", text(REPLY1))]));
    let sorted = causal_sort(&[root, reply1, reply2][..]).unwrap();
    assert_eq!(sorted, vec![3, 2, 1]);
}

#[test]
fn referenced_only_messages_are_left_out() {
    let reply1 = (id(REPLY1), 7, mapping(vec![("root", text(ROOT))]));
    let sorted = causal_sort(&[reply1][..]).unwrap();
    assert_eq!(sorted, vec![7]);
}

#[test]
fn unrelated_messages_both_appear() {
    let a = (id(ROOT), 1, mapping(vec![]));
    let b = (id(ORPHAN), 2, mapping(vec![]));
    let mut sorted = causal_sort(&[a, b][..]).unwrap();
    assert_eq!(sorted.len(), 2);
    sorted.sort();
    assert_eq!(sorted, vec![1, 2]);
}

#[test]
fn unparsed_body_still_appears_once() {
    let a = (id(ROOT), 1, StructuredValue::Other);
    let b = (id(REPLY1), 2, mapping(vec![("root", text(ROOT))]));
    let sorted = causal_sort(&[a, b][..]).unwrap();
    assert_eq!(sorted, vec![2, 1]);
}

#[test]
fn mutual_references_are_a_cycle() {
    let a = (id(ROOT), 1, mapping(vec![("previous", text(REPLY1))]));
    let b = (id(REPLY1), 2, mapping(vec![("root", text(ROOT))]));
    assert_eq!(causal_sort(&[a, b][..]), Err(CausalSortError::Cycle));
}

#[test]
fn transitive_references_are_a_cycle() {
    let a = (id(ROOT), 1, mapping(vec![("x", text(REPLY1))]));
    let b = (id(REPLY1), 2, mapping(vec![("x", text(REPLY2))]));
    let c = (id(REPLY2), 3, mapping(vec![("x", text(ROOT))]));
    assert_eq!(causal_sort(&[a, b, c][..]), Err(CausalSortError::Cycle));
}

#[test]
fn self_reference_is_a_cycle() {
    let a = (id(ROOT), 1, StructuredValue::Sequence(vec![text(ROOT)]));
    assert_eq!(causal_sort(&[a][..]), Err(CausalSortError::Cycle));
}

#[test]
fn duplicate_identifier_keeps_first_key() {
    let a = (id(ROOT), 1, mapping(vec![]));
    let b = (id(ROOT), 2, mapping(vec![]));
    let c = (id(REPLY1), 3, mapping(vec![("root", text(ROOT))]));
    let sorted = causal_sort(&[a, b, c][..]).unwrap();
    assert_eq!(sorted, vec![3, 1]);
}

#[test]
fn empty_input_gives_empty_order() {
    let msgs: [(MessageId, u32, StructuredValue); 0] = [];
    assert_eq!(causal_sort(&msgs[..]).unwrap(), Vec::<u32>::new());
}

#[test]
fn extraction_is_repeatable() {
    let v = root_body();
    let first = extract_references(&v);
    let second = extract_references(&v);
    assert_eq!(first, second);
    assert_eq!(first.len(), 4);
}

#[test]
fn extraction_skips_keys_scalars_and_plain_text() {
    let v = StructuredValue::Mapping(vec![
        (ROOT.to_string(), StructuredValue::Other),
        ("note".to_string(), text("hello")),
        ("almost".to_string(), text("%not-a-hash.sha256")),
        ("list".to_string(), StructuredValue::Sequence(vec![StructuredValue::Other, text(REPLY1)])),
    ]);
    let refs = extract_references(&v);
    assert_eq!(refs, vec![id(REPLY1)]);
}

#[test]
fn extraction_keeps_depth_first_order_and_duplicates() {
    let v = StructuredValue::Sequence(vec![
        text(REPLY2),
        StructuredValue::Sequence(vec![text(ROOT), text(REPLY2)]),
    ]);
    assert_eq!(extract_references(&v), vec![id(REPLY2), id(ROOT), id(REPLY2)]);
}

#[test]
fn legacy_identifiers_decode() {
    let m = parse_message_id("%MwjdLV95P7VqHfrgS49nScXsyIwJfL229e5OSKc+0rc=.sha256").unwrap();
    assert!(!m.blob);
    assert_eq!(m.digest[0], 0x33);
    let b = parse_message_id("&MwjdLV95P7VqHfrgS49nScXsyIwJfL229e5OSKc+0rc=.sha256").unwrap();
    assert!(b.blob);
    assert_eq!(m.digest, b.digest);
    assert!(parse_message_id("hello").is_none());
    assert!(parse_message_id("").is_none());
    assert!(parse_message_id("%MwjdLV95P7VqHfrgS49nScXsyIwJfL229e5OSKc+0rc=.sha512").is_none());
}

#[test]
fn identifiers_compare_by_content() {
    let a = id(ROOT);
    let b = id(ROOT);
    let c = id(REPLY1);
    assert!(same_id(&a, &b));
    assert!(!same_id(&a, &c));
    let m = id("%MwjdLV95P7VqHfrgS49nScXsyIwJfL229e5OSKc+0rc=.sha256");
    let blob = id("&MwjdLV95P7VqHfrgS49nScXsyIwJfL229e5OSKc+0rc=.sha256");
    assert!(!same_id(&m, &blob));
}
