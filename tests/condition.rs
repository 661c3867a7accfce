use hayabusa::condition::{ConditionCompiler, ConditionToken};
use hayabusa::node::ConditionNode;

fn names(v: &[&str]) -> Vec<String> {
    v.iter().map(|s| s.to_string()).collect()
}

fn compile_err(condition: &str, keys: &[&str]) -> String {
    let compiler = ConditionCompiler::new();
    match compiler.compile_condition(condition, &names(keys)) {
        Ok(_) => panic!("the condition was accepted"),
        Err(e) => e,
    }
}

fn select(condition: &str, keys: &[&str], satisfied: &[&str]) -> bool {
    let compiler = ConditionCompiler::new();
    let node = compiler
        .compile_condition(condition, &names(keys))
        .expect("the condition compiles");
    node.evaluate(&names(satisfied))
}

#[test]
fn test_convert_condition_all_of_selection() {
    let condition = "all of selection*";

    let keys = vec!["selection1".to_string(), "selection2".to_string()];
    let result = ConditionCompiler::convert_condition(condition, &keys);
    let expected = "(selection1 and selection2)".to_string();
    assert_eq!(result, expected);

    let keys = vec![
        "selection1".to_string(),
        "selection2".to_string(),
        "selection3".to_string(),
    ];
    let result = ConditionCompiler::convert_condition(condition, &keys);
    let expected = "(selection1 and selection2 and selection3)".to_string();
    assert_eq!(result, expected);
}

#[test]
fn test_convert_condition_multiple_all_of_selection() {
    let condition = "all of selection* and all of filter*";

    let keys = vec![
        "selection1".to_string(),
        "selection2".to_string(),
        "filter1".to_string(),
        "filter2".to_string(),
    ];
    let result = ConditionCompiler::convert_condition(condition, &keys);
    let expected = "(selection1 and selection2) and (filter1 and filter2)".to_string();
    assert_eq!(result, expected);
}

#[test]
fn test_convert_condition_one_of_selection() {
    let condition = "1 of selection*";

    let keys = vec!["selection1".to_string(), "selection2".to_string()];
    let result = ConditionCompiler::convert_condition(condition, &keys);
    let expected = "(selection1 or selection2)".to_string();
    assert_eq!(result, expected);

    let keys = vec![
        "selection1".to_string(),
        "selection2".to_string(),
        "selection3".to_string(),
    ];
    let result = ConditionCompiler::convert_condition(condition, &keys);
    let expected = "(selection1 or selection2 or selection3)".to_string();
    assert_eq!(result, expected);
}

#[test]
fn test_convert_condition_multiple_one_of_selection() {
    let condition = "1 of selection* and 1 of filter*";
    let keys = vec![
        "selection1".to_string(),
        "selection2".to_string(),
        "filter1".to_string(),
        "filter2".to_string(),
    ];
    let result = ConditionCompiler::convert_condition(condition, &keys);
    let expected = "(selection1 or selection2) and (filter1 or filter2)".to_string();
    assert_eq!(result, expected);
}

#[test]
fn test_convert_condition_convert_complex_condition() {
    let condition = "all of selection* and test1 or test2 or 1 of filter*";
    let keys = vec![
        "selection1".to_string(),
        "selection2".to_string(),
        "test".to_string(),
        "filter1".to_string(),
        "filter2".to_string(),
    ];
    let result = ConditionCompiler::convert_condition(condition, &keys);
    let expected =
        "(selection1 and selection2) and test1 or test2 or (filter1 or filter2)".to_string();
    assert_eq!(result, expected);
}

#[test]
fn test_convert_condition_not_convert() {
    let condition = "selection1 and selection2";
    let keys = vec!["selection1".to_string(), "selection2".to_string()];
    let result = ConditionCompiler::convert_condition(condition, &keys);
    assert_eq!(result, condition);
}

#[test]
fn convert_condition_is_a_fixed_point() {
    let keys = names(&["sus1", "sus2", "filter_a", "filter_b"]);
    let once = ConditionCompiler::convert_condition("all of sus* and not 1 of filter_*", &keys);
    assert_eq!(once, "(sus1 and sus2) and not (filter_a or filter_b)");
    let twice = ConditionCompiler::convert_condition(&once, &keys);
    assert_eq!(twice, once);
}

#[test]
fn convert_condition_without_matching_name_gives_empty_group() {
    let keys = names(&["selection"]);
    let result = ConditionCompiler::convert_condition("1 of filter*", &keys);
    assert_eq!(result, "()");
    let err = compile_err("1 of filter*", &["selection"]);
    assert_eq!(err, "A condition parse error has occurred. Unknown error.");
}

#[test]
fn test_rule_parseerror_no_condition() {
    let compiler = ConditionCompiler::new();
    let result = compiler.compile_detection(None, &names(&["selection", "selection2"]));
    assert!(matches!(result, Err(ref e) if e == &vec![
        "There is no condition node under detection.".to_string()
    ]));
}

#[test]
fn detection_without_selections_is_rejected() {
    let compiler = ConditionCompiler::new();
    let result = compiler.compile_detection(Some("selection"), &names(&[]));
    assert!(result.is_err());
    let result = compiler.compile_detection(None, &names(&[]));
    assert!(result.is_err());
}

#[test]
fn test_condition_err_condition_forbit_character() {
    assert_eq!(
        compile_err("selection-1 and selection2", &["selection-1", "selection2"]),
        "A condition parse error has occurred. An unusable character was found."
    );
}

#[test]
fn test_condition_err_leftparenthesis_over() {
    assert_eq!(
        compile_err("selection1 and ((selection2)", &["selection1", "selection2"]),
        "A condition parse error has occurred. ')' was expected but not found."
    );
}

#[test]
fn test_condition_err_rightparenthesis_over() {
    assert_eq!(
        compile_err("selection1 and (selection2))", &["selection1", "selection2"]),
        "A condition parse error has occurred. '(' was expected but not found."
    );
}

#[test]
fn test_condition_err_parenthesis_direction_wrong() {
    assert_eq!(
        compile_err("selection1 and )selection2(", &["selection1", "selection2"]),
        "A condition parse error has occurred. ')' was expected but not found."
    );
}

#[test]
fn test_condition_err_no_logical() {
    assert_eq!(
        compile_err("selection1 selection2", &["selection1", "selection2"]),
        "A condition parse error has occurred. Unknown error. Maybe it is because there are multiple names of selection nodes."
    );
}

#[test]
fn test_condition_err_first_logical() {
    assert_eq!(
        compile_err("and selection1 or selection2", &["selection1", "selection2"]),
        "A condition parse error has occurred. An illegal logical operator(and, or) was found."
    );
}

#[test]
fn test_condition_err_last_logical() {
    assert_eq!(
        compile_err("selection1 or selection2 or", &["selection1", "selection2"]),
        "A condition parse error has occurred. An illegal logical operator(and, or) was found."
    );
}

#[test]
fn test_condition_err_consecutive_logical() {
    assert_eq!(
        compile_err("selection1 or or selection2", &["selection1", "selection2"]),
        "A condition parse error has occurred. The use of a logical operator(and, or) was wrong."
    );
}

#[test]
fn test_condition_err_only_not() {
    assert_eq!(
        compile_err("selection1 or ( not )", &["selection1", "selection2"]),
        "A condition parse error has occurred. An illegal not was found."
    );
}

#[test]
fn test_condition_err_not_not() {
    assert_eq!(
        compile_err("selection1 or ( not not )", &["selection1", "selection2"]),
        "A condition parse error has occurred. Not is continuous."
    );
}

#[test]
fn undefined_selection_is_named() {
    assert_eq!(
        compile_err("selection1 and selection9", &["selection1", "selection2"]),
        "A condition parse error has occurred. selection9 is not defined."
    );
}

#[test]
fn aggregation_part_is_left_out() {
    assert!(select("selection | count() >= 2", &["selection"], &["selection"]));
    assert!(!select("selection | count() >= 2", &["selection"], &[]));
}

#[test]
fn evaluate_reference_and_not() {
    let node = ConditionNode::Not(Box::new(ConditionNode::Reference("a".to_string())));
    assert!(node.evaluate(&names(&[])));
    assert!(!node.evaluate(&names(&["a"])));
}

#[test]
fn and_binds_tighter_than_or() {
    // a or (b and c)
    assert!(select("a or b and c", &["a", "b", "c"], &["a"]));
    assert!(!select("a or b and c", &["a", "b", "c"], &["b"]));
    assert!(select("a or b and c", &["a", "b", "c"], &["b", "c"]));
    // (a or b) and c
    assert!(!select("(a or b) and c", &["a", "b", "c"], &["a"]));
}

#[test]
fn scenario_simple_match() {
    assert!(select("selection", &["selection"], &["selection"]));
}

#[test]
fn scenario_negation() {
    assert!(select("not selection", &["selection"], &[]));
    assert!(!select("not selection", &["selection"], &["selection"]));
}

#[test]
fn scenario_all_of_prefix() {
    let keys = ["sus1", "sus2", "sus3", "filter_a", "filter_b"];
    let c = "all of sus* and not 1 of filter_*";
    assert!(select(c, &keys, &["sus1", "sus2", "sus3"]));
    assert!(!select(c, &keys, &["sus1", "sus2", "sus3", "filter_a"]));
    assert!(!select(c, &keys, &["sus1", "sus3"]));
}

#[test]
fn sub_tokens_of_containers() {
    let and = ConditionToken::AndContainer(vec![
        ConditionToken::SelectionReference("a".to_string()),
        ConditionToken::Not,
    ]);
    let subs = and.sub_tokens();
    assert_eq!(subs.len(), 2);
    assert!(matches!(&subs[0], ConditionToken::SelectionReference(n) if n == "a"));
    assert!(matches!(subs[1], ConditionToken::Not));
    assert_eq!(and.sub_tokens_without_parenthesis().len(), 2);
    let paren = ConditionToken::ParenthesisContainer(vec![ConditionToken::And]);
    assert_eq!(paren.sub_tokens().len(), 1);
    assert!(paren.sub_tokens_without_parenthesis().is_empty());
    assert!(ConditionToken::Or.sub_tokens().is_empty());
    let replaced = paren.replace_subtoken(vec![ConditionToken::Or, ConditionToken::Or]);
    assert!(matches!(&replaced, ConditionToken::ParenthesisContainer(v) if v.len() == 2));
    let same = ConditionToken::SelectionReference("b".to_string()).replace_subtoken(vec![]);
    assert!(matches!(&same, ConditionToken::SelectionReference(n) if n == "b"));
}

#[test]
fn leftmost_undefined_name_is_reported() {
    let c = ConditionCompiler::new();
    let r = c.compile_condition("known or (first and second)", &names(&["known"]));
    assert_eq!(
        r.unwrap_err(),
        "A condition parse error has occurred. first is not defined."
    );
}

#[test]
fn nothing_compiles_without_selections() {
    let c = ConditionCompiler::new();
    assert!(c.compile_condition("selection", &names(&[])).is_err());
    assert!(c.compile_condition("not (a or b)", &names(&[])).is_err());
}

