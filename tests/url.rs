use indexmap::IndexMap;
use seed_routing::query::extract_query_params;
use seed_routing::url::{extract_children_string, extract_id_parameter, extract_url_payload};

#[derive(Debug)]
struct UserTask {
    id: String,
    query: IndexMap<String, String>,
    children: String,
}

#[derive(Debug)]
struct UserTask2 {
    id: String,
    query: IndexMap<String, String>,
}

#[derive(Debug)]
struct UserTask3 {
    query: IndexMap<String, String>,
    children: String,
}

#[derive(Debug)]
struct UserTask4 {
    id: String,
    children: String,
}

fn user_role() -> IndexMap<String, String> {
    let mut query_to_compare: IndexMap<String, String> = IndexMap::new();
    query_to_compare.insert("user".to_string(), "arn".to_string());
    query_to_compare.insert("role".to_string(), "programmer".to_string());
    query_to_compare
}

#[test]
fn lib_it_works() {
    assert_eq!(2 + 2, 4);
}

#[test]
fn test_extract_id_param() {
    let url_string = "/12/stuff?user=arn&role=programmer";
    let id_param = extract_id_parameter(&url_string.to_string());
    assert_eq!(id_param, "12");

    let url_string = "/12?user=arn&role=programmer";
    let id_param = extract_id_parameter(&url_string.to_string());
    assert_eq!(id_param, "12");
}

#[test]
fn test_extract_query_params() {
    let url_string = "/12/stuff?user=arn&role=programmer";
    let params = extract_query_params(&url_string.to_string());
    assert_eq!(params, user_role());

    let url_string = "/12/stuff";
    let params = extract_query_params(&url_string.to_string());
    let query_to_compare: IndexMap<String, String> = IndexMap::new();
    assert_eq!(params, query_to_compare);

    let url_string = "/12/stuff?";
    let params = extract_query_params(&url_string.to_string());
    let query_to_compare: IndexMap<String, String> = IndexMap::new();
    assert_eq!(params, query_to_compare);
}

#[test]
fn test_extract_children() {
    let url_string = "/12/stuff?user=arn&role=programmer";
    let children = extract_children_string(url_string.to_string(), Some("12".to_string()));
    assert_eq!(children, "/stuff?user=arn&role=programmer");

    let url_string = "/12/stuff?user=arn&role=programmer";
    let children = extract_children_string(url_string.to_string(), None);
    assert_eq!(children, "/12/stuff?user=arn&role=programmer");
}

#[test]
fn test_string_to_index_map() {
    let string = "/task?user=arn&role=programmer";
    let query = extract_url_payload(string.to_string(), false, true, false);
    assert_eq!(query.1.unwrap(), user_role());
}

#[test]
fn test_strings() {
    let string = "/task/12?user=arn&role=programmer";

    let task: UserTask2 = string
        .trim_start_matches('/')
        .strip_prefix("task")
        .map(|rest| extract_url_payload(rest.to_string(), true, true, false))
        .map(|(id, query, _)| (id.unwrap(), query.unwrap()))
        .map(|(id, query)| UserTask2 { id, query })
        .unwrap();

    println!("{:?}", task);
    assert_eq!(task.id, "12");
    assert_eq!(task.query, user_role());

    let string = "?user=arn&role=programmer";
    let query = extract_url_payload(string.to_string(), false, true, true);
    assert_eq!(query.1.unwrap(), user_role());
}

#[test]
fn test_strings_with_id_param_and_children_and_query() {
    let string = "/task/12/stuff?user=arn&role=programmer";

    let task: UserTask = string
        .trim_start_matches('/')
        .strip_prefix("task")
        .map(|rest| extract_url_payload(rest.to_string(), true, true, true))
        .map(|(id, query, children)| (id.unwrap(), query.unwrap(), children.unwrap()))
        .map(|(id, query, children)| UserTask {
            id,
            query,
            children,
        })
        .unwrap();

    println!("{:?}", task);
    assert_eq!(task.id, "12");
    assert_eq!(task.query, user_role());
    assert_eq!(task.children, "/stuff?user=arn&role=programmer")
}

#[test]
fn test_strings_with_id_param_and_children() {
    let string = "/task/12/stuff?user=arn&role=programmer";

    let task: UserTask4 = string
        .trim_start_matches('/')
        .strip_prefix("task")
        .map(|rest| extract_url_payload(rest.to_string(), true, false, true))
        .map(|(id, query, children)| (id.unwrap(), query, children.unwrap()))
        .map(|(id, _, children)| UserTask4 { id, children })
        .unwrap();

    assert_eq!(task.id, "12");
    assert_eq!(task.children, "/stuff?user=arn&role=programmer")
}

#[test]
fn test_strings_with_children_and_query() {
    let string = "/task/stuff?user=arn&role=programmer";

    let task: UserTask3 = string
        .trim_start_matches('/')
        .strip_prefix("task")
        .map(|rest| extract_url_payload(rest.to_string(), false, true, true))
        .map(|(id, query, children)| (id, query.unwrap(), children.unwrap()))
        .map(|(_, query, children)| UserTask3 { query, children })
        .unwrap();

    println!("{:?}", task);
    assert_eq!(task.query, user_role());
    assert_eq!(task.children, "/stuff?user=arn&role=programmer")
}

#[test]
fn query_pairs_without_value_or_with_repeated_keys() {
    let params = extract_query_params("/x?a=1&b&a=3&c=4=5");
    let mut expected: IndexMap<String, String> = IndexMap::new();
    expected.insert("a".to_string(), "3".to_string());
    expected.insert("b".to_string(), "".to_string());
    expected.insert("c".to_string(), "4".to_string());
    assert_eq!(params, expected);
    let keys: Vec<&String> = params.keys().collect();
    assert_eq!(keys, vec!["a", "b", "c"]);
}

#[test]
fn query_text_keeps_insertion_order() {
    let mut q: IndexMap<String, String> = IndexMap::new();
    q.insert("user".to_string(), "arn".to_string());
    q.insert("role".to_string(), "baby_programmer".to_string());
    q.insert("location".to_string(), "norway".to_string());
    assert_eq!(
        seed_routing::query::convert_to_string(&q),
        "user=arn&role=baby_programmer&location=norway"
    );
    let empty: IndexMap<String, String> = IndexMap::new();
    assert_eq!(seed_routing::query::convert_to_string(&empty), "");
}

#[test]
fn id_without_leading_slash_and_empty_input() {
    assert_eq!(extract_id_parameter("12/x"), "12");
    assert_eq!(extract_id_parameter(""), "");
    assert_eq!(extract_id_parameter("//x"), "");
}
