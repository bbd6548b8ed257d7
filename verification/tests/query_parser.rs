use boolean_retrieval::query_parser::{classify, count_char, QueryParser, Symbol};
use boolean_retrieval::text::{trim, Delimiter};

fn strings(items: &[&str]) -> Vec<String> {
    items.iter().map(|s| s.to_string()).collect()
}

#[test]
fn test_to_postfix() {
    let qp = QueryParser::new();
    assert_eq!(
        qp.to_postfix("boat AND time"),
        Some(vec![
            "boat".to_string(),
            "time".to_string(),
            "AND".to_string()
        ])
    );
    assert_eq!(
        qp.to_postfix("boat OR time"),
        Some(vec![
            "boat".to_string(),
            "time".to_string(),
            "OR".to_string()
        ])
    );
    assert_eq!(
        qp.to_postfix("NOT boat"),
        Some(vec!["boat".to_string(), "NOT".to_string()])
    );
    assert_eq!(
        qp.to_postfix("NOT boat AND time"),
        Some(vec![
            "boat".to_string(),
            "NOT".to_string(),
            "time".to_string(),
            "AND".to_string()
        ])
    );
    assert_eq!(
        qp.to_postfix("     \t \n   NOT    (boat    AND    time)\n\t\t\t"),
        Some(vec![
            "boat".to_string(),
            "time".to_string(),
            "AND".to_string(),
            "NOT".to_string(),
        ])
    );
    assert_eq!(
        qp.to_postfix("tent AND NOT (blood AND sweat) OR tree"),
        Some(vec![
            "tent".to_string(),
            "blood".to_string(),
            "sweat".to_string(),
            "AND".to_string(),
            "NOT".to_string(),
            "tree".to_string(),
            "OR".to_string(),
            "AND".to_string(),
        ])
    );
}

#[test]
fn postfix_of_a_single_word_is_the_word() {
    let qp = QueryParser::new();
    assert_eq!(qp.to_postfix("boat"), Some(strings(&["boat"])));
    assert_eq!(qp.to_postfix("  boat\n"), Some(strings(&["boat"])));
}

#[test]
fn postfix_of_an_empty_query_is_empty() {
    let qp = QueryParser::new();
    assert_eq!(qp.to_postfix(""), Some(Vec::<String>::new()));
    assert_eq!(qp.to_postfix(" \t\n "), Some(Vec::<String>::new()));
}

#[test]
fn query_is_cut_at_tabs_and_line_feeds_too() {
    let qp = QueryParser::new();
    assert_eq!(
        qp.to_postfix("boat\tAND\ntime"),
        Some(strings(&["boat", "time", "AND"]))
    );
}

#[test]
fn operators_are_matched_by_case() {
    let qp = QueryParser::new();
    assert_eq!(
        qp.to_postfix("boat and time"),
        Some(strings(&["boat", "and", "time"]))
    );
    assert_eq!(
        qp.to_postfix("boat Or time"),
        Some(strings(&["boat", "Or", "time"]))
    );
}

#[test]
fn mixed_operators_group_to_the_right() {
    let qp = QueryParser::new();
    assert_eq!(
        qp.to_postfix("a AND b OR c"),
        Some(strings(&["a", "b", "c", "OR", "AND"]))
    );
    assert_eq!(
        qp.to_postfix("a OR b AND c"),
        Some(strings(&["a", "b", "c", "AND", "OR"]))
    );
}

#[test]
fn equal_operators_group_to_the_left() {
    let qp = QueryParser::new();
    assert_eq!(
        qp.to_postfix("a AND b AND c"),
        Some(strings(&["a", "b", "AND", "c", "AND"]))
    );
    assert_eq!(
        qp.to_postfix("a OR b OR c"),
        Some(strings(&["a", "b", "OR", "c", "OR"]))
    );
}

#[test]
fn not_applies_to_the_next_factor() {
    let qp = QueryParser::new();
    assert_eq!(
        qp.to_postfix("a AND NOT b"),
        Some(strings(&["a", "b", "NOT", "AND"]))
    );
    assert_eq!(
        qp.to_postfix("NOT a OR NOT b AND NOT c"),
        Some(strings(&["a", "NOT", "b", "NOT", "c", "NOT", "AND", "OR"]))
    );
}

#[test]
fn a_second_not_sends_the_first_to_the_output() {
    let qp = QueryParser::new();
    assert_eq!(
        qp.to_postfix("NOT NOT a"),
        Some(strings(&["NOT", "a", "NOT"]))
    );
}

#[test]
fn closing_parenthesis_without_opening_is_malformed() {
    let qp = QueryParser::new();
    assert_eq!(qp.to_postfix(")"), None);
    assert_eq!(qp.to_postfix("boat)"), None);
    assert_eq!(qp.to_postfix("boat AND time)"), None);
    assert_eq!(qp.to_postfix("(boat) AND time)"), None);
}

#[test]
fn opening_parenthesis_without_closing_is_malformed() {
    let qp = QueryParser::new();
    assert_eq!(qp.to_postfix("(boat"), None);
    assert_eq!(qp.to_postfix("(boat AND (time)"), None);
    assert_eq!(qp.to_postfix("NOT ((boat)"), None);
}

#[test]
fn nested_parentheses() {
    let qp = QueryParser::new();
    assert_eq!(
        qp.to_postfix("((a OR b) AND c)"),
        Some(strings(&["a", "b", "OR", "c", "AND"]))
    );
    assert_eq!(
        qp.to_postfix("(a OR (b AND c))"),
        Some(strings(&["a", "b", "c", "AND", "OR"]))
    );
}

#[test]
fn tokenize_parenthesis_splits_parentheses_off() {
    assert_eq!(
        QueryParser::tokenize_parenthesis(strings(&["NOT", "(boat", "AND", "time)"])),
        strings(&["NOT", "(", "boat", "AND", "time", ")"])
    );
    assert_eq!(
        QueryParser::tokenize_parenthesis(strings(&["((a))"])),
        strings(&["(", "(", "a", ")", ")"])
    );
}

#[test]
fn tokenize_parenthesis_keeps_tokens_without_parentheses() {
    assert_eq!(
        QueryParser::tokenize_parenthesis(strings(&["boat", "AND", "time"])),
        strings(&["boat", "AND", "time"])
    );
    assert_eq!(
        QueryParser::tokenize_parenthesis(Vec::new()),
        Vec::<String>::new()
    );
}

#[test]
fn tokenize_parenthesis_opening_ones_come_first() {
    assert_eq!(
        QueryParser::tokenize_parenthesis(strings(&[")a("])),
        strings(&["(", "a", ")"])
    );
}

#[test]
fn tokenize_parenthesis_keeps_inner_parentheses_in_the_word() {
    assert_eq!(
        QueryParser::tokenize_parenthesis(strings(&["a(b"])),
        strings(&["(", "a(b"])
    );
    assert_eq!(
        QueryParser::tokenize_parenthesis(strings(&["(a)b)"])),
        strings(&["(", "a)b", ")", ")"])
    );
}

#[test]
fn tokenize_parenthesis_of_parentheses_that_stand_alone() {
    assert_eq!(
        QueryParser::tokenize_parenthesis(strings(&["(", "boat", ")"])),
        strings(&["(", "boat", ")"])
    );
    assert_eq!(
        QueryParser::tokenize_parenthesis(strings(&["("])),
        strings(&["("])
    );
    assert_eq!(
        QueryParser::tokenize_parenthesis(strings(&[")"])),
        strings(&[")"])
    );
    assert_eq!(
        QueryParser::tokenize_parenthesis(strings(&["()"])),
        strings(&["(", ")"])
    );
    assert_eq!(
        QueryParser::tokenize_parenthesis(strings(&["((", "a", "))"])),
        strings(&["(", "(", "a", ")", ")"])
    );
}

#[test]
fn parentheses_may_stand_apart_from_the_words() {
    let qp = QueryParser::new();
    assert_eq!(qp.to_postfix("( a )"), Some(strings(&["a"])));
    assert_eq!(
        qp.to_postfix("NOT ( boat AND time )"),
        Some(strings(&["boat", "time", "AND", "NOT"]))
    );
    assert_eq!(
        qp.to_postfix("( ( a OR b ) AND c )"),
        Some(strings(&["a", "b", "OR", "c", "AND"]))
    );
    assert_eq!(qp.to_postfix("( )"), Some(Vec::<String>::new()));
    assert_eq!(qp.to_postfix("()"), Some(Vec::<String>::new()));
    assert_eq!(qp.to_postfix("( a"), None);
    assert_eq!(qp.to_postfix("a )"), None);
}

#[test]
fn a_postfix_program_holds_words_and_operators_only() {
    let qp = QueryParser::new();
    let queries = [
        "( a )",
        "((a) AND ( b ))",
        "NOT ( ) OR a",
        "a(b) OR ()",
        ")a(",
        "( ( ) )",
        "tent AND NOT (blood AND sweat) OR tree",
    ];
    for query in queries {
        if let Some(program) = qp.to_postfix(query) {
            for token in program {
                assert_ne!(token, "");
                assert_ne!(token, "(");
                assert_ne!(token, ")");
            }
        }
    }
}

#[test]
fn new_parser_lists_the_three_operators() {
    let qp = QueryParser::new();
    assert_eq!(qp.operators, &["AND", "OR", "NOT"]);
    for op in qp.operators.iter() {
        assert_ne!(classify(op), Symbol::Word);
    }
    assert_eq!(classify(qp.operators[0]), Symbol::And);
    assert_eq!(classify(qp.operators[1]), Symbol::Or);
    assert_eq!(classify(qp.operators[2]), Symbol::Not);
}

#[test]
fn classify_tells_the_symbols_apart() {
    assert_eq!(classify("AND"), Symbol::And);
    assert_eq!(classify("OR"), Symbol::Or);
    assert_eq!(classify("NOT"), Symbol::Not);
    assert_eq!(classify("("), Symbol::Open);
    assert_eq!(classify(")"), Symbol::Close);
    assert_eq!(classify("and"), Symbol::Word);
    assert_eq!(classify("ANDY"), Symbol::Word);
    assert_eq!(classify(""), Symbol::Word);
    assert_eq!(classify("()"), Symbol::Word);
}

#[test]
fn count_char_counts() {
    let chars: Vec<char> = "((a)b(".chars().collect();
    assert_eq!(count_char(&chars, '('), 3);
    assert_eq!(count_char(&chars, ')'), 1);
    assert_eq!(count_char(&chars, 'z'), 0);
    assert_eq!(count_char(&Vec::new(), '('), 0);
}

#[test]
fn strip_parens_strips_both_ends_only() {
    let strip = |s: &str| -> String {
        let chars: Vec<char> = s.chars().collect();
        trim(&chars, Delimiter::Parenthesis).into_iter().collect()
    };
    assert_eq!(strip("((boat))"), "boat");
    assert_eq!(strip(")(boat"), "boat");
    assert_eq!(strip("bo(at"), "bo(at");
    assert_eq!(strip("()"), "");
    assert_eq!(strip(""), "");
    assert_eq!(strip("boat"), "boat");
}
