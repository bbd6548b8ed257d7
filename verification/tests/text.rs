use boolean_retrieval::text::{
    chars_of, is_delimiter, split, string_of, strings_of, trim, Delimiter,
};

fn pieces(text: &str, d: Delimiter) -> Vec<String> {
    strings_of(&split(&chars_of(text), d))
}

#[test]
fn chars_and_back() {
    assert_eq!(chars_of("héllo"), vec!['h', 'é', 'l', 'l', 'o']);
    assert_eq!(chars_of(""), Vec::<char>::new());
    assert_eq!(string_of(&vec!['h', 'é', 'l', 'l', 'o']), "héllo");
    assert_eq!(string_of(&Vec::new()), "");
    assert_eq!(
        strings_of(&vec![vec!['a', 'b'], vec![], vec!['c']]),
        vec!["ab".to_string(), "".to_string(), "c".to_string()]
    );
}

#[test]
fn split_at_blanks() {
    assert_eq!(pieces("a b", Delimiter::Blank), vec!["a", "b"]);
    assert_eq!(pieces("  a \t\n b\n", Delimiter::Blank), vec!["a", "b"]);
    assert_eq!(pieces("a,b c", Delimiter::Blank), vec!["a,b", "c"]);
    assert_eq!(pieces("", Delimiter::Blank), Vec::<String>::new());
    assert_eq!(pieces(" \t ", Delimiter::Blank), Vec::<String>::new());
    assert_eq!(pieces("abc", Delimiter::Blank), vec!["abc"]);
}

#[test]
fn carriage_return_is_no_blank() {
    assert_eq!(pieces("a\rb", Delimiter::Blank), vec!["a\rb"]);
}

#[test]
fn split_at_what_is_not_alphanumeric() {
    assert_eq!(
        pieces("Hello, World!! foo_bar", Delimiter::NonAlphanumeric),
        vec!["Hello", "World", "foo", "bar"]
    );
    assert_eq!(
        pieces("--a--", Delimiter::NonAlphanumeric),
        vec!["a"]
    );
    assert_eq!(
        pieces("x1 2y", Delimiter::NonAlphanumeric),
        vec!["x1", "2y"]
    );
    assert_eq!(pieces("...", Delimiter::NonAlphanumeric), Vec::<String>::new());
}

#[test]
fn letters_of_other_scripts_are_alphanumeric() {
    assert_eq!(
        pieces("naïve café—日本語 ٣", Delimiter::NonAlphanumeric),
        vec!["naïve", "café", "日本語", "٣"]
    );
}

#[test]
fn delimiters() {
    assert!(is_delimiter(Delimiter::Blank, ' '));
    assert!(is_delimiter(Delimiter::Blank, '\t'));
    assert!(is_delimiter(Delimiter::Blank, '\n'));
    assert!(!is_delimiter(Delimiter::Blank, 'a'));
    assert!(!is_delimiter(Delimiter::Blank, '('));
    assert!(is_delimiter(Delimiter::NonAlphanumeric, ' '));
    assert!(is_delimiter(Delimiter::NonAlphanumeric, '('));
    assert!(!is_delimiter(Delimiter::NonAlphanumeric, 'a'));
    assert!(!is_delimiter(Delimiter::NonAlphanumeric, '7'));
    assert!(!is_delimiter(Delimiter::NonAlphanumeric, 'é'));
}

#[test]
fn trim_takes_blanks_off_both_ends() {
    let cut = |s: &str| -> String { string_of(&trim(&chars_of(s), Delimiter::Blank)) };
    assert_eq!(cut("  cat \t\n"), "cat");
    assert_eq!(cut("cat"), "cat");
    assert_eq!(cut(" a cat "), "a cat");
    assert_eq!(cut(" \n\t "), "");
    assert_eq!(cut(""), "");
    assert_eq!(cut("\rcat\r"), "\rcat\r");
}

#[test]
fn parentheses_are_delimiters_of_their_own_kind() {
    assert!(is_delimiter(Delimiter::Parenthesis, '('));
    assert!(is_delimiter(Delimiter::Parenthesis, ')'));
    assert!(!is_delimiter(Delimiter::Parenthesis, '['));
    assert!(!is_delimiter(Delimiter::Parenthesis, ' '));
    assert_eq!(pieces("(a)(b c)", Delimiter::Parenthesis), vec!["a", "b c"]);
}
