use lib::ident_case::{change_case, IdentCase};

#[test]
fn test_change_case() {
    assert_eq!(change_case("test", IdentCase::UpperCamelCase), "Test");
    assert_eq!(change_case("test", IdentCase::LowerCamelCase), "test");
    assert_eq!(change_case("test", IdentCase::UpperSnakeCase), "TEST");
    assert_eq!(change_case("test", IdentCase::LowerSnakeCase), "test");

    assert_eq!(change_case("TestText", IdentCase::UpperCamelCase), "TestText");
    assert_eq!(change_case("TestText", IdentCase::LowerCamelCase), "testText");
    assert_eq!(change_case("TestText", IdentCase::UpperSnakeCase), "TEST_TEXT");
    assert_eq!(change_case("TestText", IdentCase::LowerSnakeCase), "test_text");

    assert_eq!(change_case("test_text", IdentCase::UpperCamelCase), "TestText");
    assert_eq!(change_case("test_text", IdentCase::LowerCamelCase), "testText");
    assert_eq!(change_case("test_text", IdentCase::UpperSnakeCase), "TEST_TEXT");
    assert_eq!(change_case("test_text", IdentCase::LowerSnakeCase), "test_text");
}

#[test]
fn change_case_treats_all_delimiters_alike() {
    assert_eq!(change_case("a-b c_d", IdentCase::UpperCamelCase), "ABCD");
    assert_eq!(change_case("a-b c_d", IdentCase::LowerSnakeCase), "a_b_c_d");
    assert_eq!(change_case("", IdentCase::UpperCamelCase), "");
    // An uppercase letter after another one does not start a word.
    assert_eq!(change_case("HTTPServer", IdentCase::LowerSnakeCase), "httpserver");
}

#[test]
fn the_four_cases_differ_only_in_underscores_and_letter_case() {
    let input = "foo_bar baz-QuxQuux";
    let expected: String = input.chars().filter(|c| !matches!(c, ' ' | '-' | '_')).map(|c| c.to_ascii_lowercase()).collect();
    for case in [IdentCase::UpperCamelCase, IdentCase::LowerCamelCase, IdentCase::UpperSnakeCase, IdentCase::LowerSnakeCase] {
        let out = change_case(input, case);
        assert!(!out.contains(' ') && !out.contains('-'));
        let stripped: String = out.chars().filter(|c| *c != '_').map(|c| c.to_ascii_lowercase()).collect();
        assert_eq!(stripped, expected);
    }
    assert!(!change_case(input, IdentCase::UpperCamelCase).contains('_'));
    assert!(!change_case(input, IdentCase::LowerCamelCase).contains('_'));
}
