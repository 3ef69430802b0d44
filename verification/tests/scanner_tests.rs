use tfocus::scanner::{scan_declarations, tokenize, Token, TokenKind};
use tfocus::types::Resource;

fn chars(s: &str) -> Vec<char> {
    s.chars().collect()
}

#[test]
fn resource_block_is_declared() {
    let found = scan_declarations("resource \"aws_instance\" \"web\" {}");
    assert_eq!(found, vec![Resource::new("aws_instance", "web")]);
    assert_eq!(found[0].resource_type, "aws_instance");
    assert_eq!(found[0].name, "web");
    assert!(!found[0].is_module);
}

#[test]
fn module_block_is_declared() {
    let found = scan_declarations("module \"net\" {\n  source = \"./net\"\n}\n");
    assert_eq!(found, vec![Resource::module("net")]);
    assert_eq!(found[0].resource_type, "");
    assert!(found[0].is_module);
}

#[test]
fn declarations_come_in_text_order() {
    let text = "resource \"aws_instance\" \"web\" {}\nmodule \"net\" {}\nresource \"aws_s3_bucket\" \"logs\" {}\n";
    assert_eq!(
        scan_declarations(text),
        vec![
            Resource::new("aws_instance", "web"),
            Resource::module("net"),
            Resource::new("aws_s3_bucket", "logs"),
        ]
    );
}

#[test]
fn empty_text_declares_nothing() {
    assert_eq!(scan_declarations(""), Vec::<Resource>::new());
    assert_eq!(scan_declarations("   \n\t\r\n"), Vec::<Resource>::new());
}

#[test]
fn headers_in_comments_are_ignored() {
    let text = "# resource \"a\" \"hash\" {}\n// resource \"a\" \"slashes\" {}\n/* resource \"a\" \"block\" {}\n module \"m\" {} */\nresource \"a\" \"real\" {}\n";
    assert_eq!(scan_declarations(text), vec![Resource::new("a", "real")]);
}

#[test]
fn comment_between_header_parts_is_skipped() {
    let text = "resource /* kind */ \"a\" # name follows\n \"b\" // then the body\n {\n}\n";
    assert_eq!(scan_declarations(text), vec![Resource::new("a", "b")]);
}

#[test]
fn unterminated_block_comment_hides_the_rest() {
    let text = "module \"m\" {}\n/* resource \"a\" \"b\" {}";
    assert_eq!(scan_declarations(text), vec![Resource::module("m")]);
}

#[test]
fn white_space_between_header_parts_is_free() {
    let text = "resource\n\t\"aws_instance\"\r\n   \"web\"\n\n{\n}\nmodule\"net\"{}";
    assert_eq!(
        scan_declarations(text),
        vec![Resource::new("aws_instance", "web"), Resource::module("net")]
    );
}

#[test]
fn nested_blocks_are_ignored() {
    let text = "resource \"aws_instance\" \"web\" {\n  provisioner \"local-exec\" {\n    command = \"echo\"\n  }\n  resource \"inner\" \"hidden\" {}\n  module \"inner\" {}\n}\nmodule \"net\" {\n  providers = {\n    aws = aws.west\n  }\n}\n";
    assert_eq!(
        scan_declarations(text),
        vec![Resource::new("aws_instance", "web"), Resource::module("net")]
    );
}

#[test]
fn braces_and_keywords_in_strings_are_text() {
    let text = "locals {\n  a = \"}\"\n  b = \"resource \\\"x\\\" \\\"y\\\" {\"\n}\nresource \"a\" \"b\" {\n  tag = \"{\"\n}\nmodule \"m\" {}\n";
    assert_eq!(
        scan_declarations(text),
        vec![Resource::new("a", "b"), Resource::module("m")]
    );
}

#[test]
fn escaped_quote_stays_inside_the_string() {
    let text = "locals { s = \"a\\\"}\" }\nresource \"a\" \"b\" {}";
    assert_eq!(scan_declarations(text), vec![Resource::new("a", "b")]);
}

#[test]
fn quoted_keyword_is_no_keyword() {
    assert_eq!(scan_declarations("\"resource\" \"a\" \"b\" {}"), Vec::<Resource>::new());
    assert_eq!(scan_declarations("\"module\" \"m\" {}"), Vec::<Resource>::new());
}

#[test]
fn other_keywords_declare_nothing() {
    let text = "data \"aws_ami\" \"ubuntu\" {}\nvariable \"region\" {}\noutput \"ip\" {}\nprovider \"aws\" {}\nresources \"a\" \"b\" {}\nmodules \"m\" {}\n";
    assert_eq!(scan_declarations(text), Vec::<Resource>::new());
}

#[test]
fn header_needs_quoted_identifiers() {
    assert_eq!(scan_declarations("resource aws_instance web {}"), Vec::<Resource>::new());
    assert_eq!(scan_declarations("resource \"\" \"web\" {}"), Vec::<Resource>::new());
    assert_eq!(scan_declarations("resource \"a.b\" \"web\" {}"), Vec::<Resource>::new());
    assert_eq!(scan_declarations("resource \"a\" \"w b\" {}"), Vec::<Resource>::new());
    assert_eq!(scan_declarations("module \"\" {}"), Vec::<Resource>::new());
    assert_eq!(scan_declarations("module \"a/b\" {}"), Vec::<Resource>::new());
}

#[test]
fn header_needs_its_brace() {
    assert_eq!(scan_declarations("resource \"a\" \"b\""), Vec::<Resource>::new());
    assert_eq!(scan_declarations("resource \"a\" \"b\" = {}"), Vec::<Resource>::new());
    assert_eq!(scan_declarations("resource \"a\" {}"), Vec::<Resource>::new());
    assert_eq!(scan_declarations("module \"a\" \"b\" {}"), Vec::<Resource>::new());
    assert_eq!(scan_declarations("module \"m\""), Vec::<Resource>::new());
}

#[test]
fn labels_may_hold_hyphens_digits_and_letters_beyond_ascii() {
    let text = "resource \"aws_instance\" \"web-01\" {}\nmodule \"r\u{e9}seau\" {}\n";
    assert_eq!(
        scan_declarations(text),
        vec![Resource::new("aws_instance", "web-01"), Resource::module("r\u{e9}seau")]
    );
}

#[test]
fn stray_closing_brace_closes_nothing() {
    let text = "}\n}\nresource \"a\" \"b\" {}\n";
    assert_eq!(scan_declarations(text), vec![Resource::new("a", "b")]);
}

#[test]
fn unclosed_block_hides_what_follows() {
    let text = "locals {\nresource \"a\" \"b\" {}\n";
    assert_eq!(scan_declarations(text), Vec::<Resource>::new());
}

#[test]
fn scanning_twice_gives_the_same() {
    let text = "module \"a\" {}\nresource \"t\" \"n\" {}\nmodule \"a\" {}\n";
    assert_eq!(scan_declarations(text), scan_declarations(text));
    assert_eq!(
        scan_declarations(text),
        vec![Resource::module("a"), Resource::new("t", "n"), Resource::module("a")]
    );
}

#[test]
fn tokens_carry_kind_and_span() {
    let tokens = tokenize(&chars("ab { \"cd\" } = # x\n-9"));
    assert_eq!(
        tokens,
        vec![
            Token { kind: TokenKind::Word, start: 0, end: 2 },
            Token { kind: TokenKind::Open, start: 3, end: 4 },
            Token { kind: TokenKind::Quoted, start: 6, end: 8 },
            Token { kind: TokenKind::Close, start: 10, end: 11 },
            Token { kind: TokenKind::Other, start: 12, end: 13 },
            Token { kind: TokenKind::Word, start: 18, end: 20 },
        ]
    );
}

#[test]
fn unterminated_string_runs_to_the_end() {
    let tokens = tokenize(&chars("a \"bc"));
    assert_eq!(
        tokens,
        vec![
            Token { kind: TokenKind::Word, start: 0, end: 1 },
            Token { kind: TokenKind::Quoted, start: 3, end: 5 },
        ]
    );
    let tokens = tokenize(&chars("\"b\\"));
    assert_eq!(tokens, vec![Token { kind: TokenKind::Quoted, start: 1, end: 3 }]);
}

#[test]
fn lone_slash_is_a_mark() {
    let tokens = tokenize(&chars("a / b /"));
    assert_eq!(
        tokens,
        vec![
            Token { kind: TokenKind::Word, start: 0, end: 1 },
            Token { kind: TokenKind::Other, start: 2, end: 3 },
            Token { kind: TokenKind::Word, start: 4, end: 5 },
            Token { kind: TokenKind::Other, start: 6, end: 7 },
        ]
    );
}

#[test]
fn block_comment_ends_at_first_close() {
    let tokens = tokenize(&chars("/* a */ b */"));
    assert_eq!(
        tokens,
        vec![
            Token { kind: TokenKind::Word, start: 8, end: 9 },
            Token { kind: TokenKind::Other, start: 10, end: 11 },
            Token { kind: TokenKind::Other, start: 11, end: 12 },
        ]
    );
    assert_eq!(tokenize(&chars("/*/ a")), Vec::<Token>::new());
}

#[test]
fn heredoc_text_is_no_structure() {
    let text = "resource \"aws_instance\" \"web\" {\n  user_data = <<EOF\n#!/bin/bash\nrm -rf /tmp/*\necho \"it's { open\nresource \"a\" \"b\" {\nEOF\n}\nmodule \"net\" {}\n";
    assert_eq!(
        scan_declarations(text),
        vec![Resource::new("aws_instance", "web"), Resource::module("net")]
    );
}

#[test]
fn heredoc_outside_all_braces_hides_its_text() {
    let text = "note = <<EOT\nresource \"a\" \"b\" {}\nmodule \"m\" {}\nEOT\nresource \"c\" \"d\" {}\n";
    assert_eq!(scan_declarations(text), vec![Resource::new("c", "d")]);
}

#[test]
fn indented_heredoc_ends_at_its_indented_marker() {
    let text = "locals {\n  a = <<-EOT\n    {{{\n    EOT\n}\nmodule \"m\" {}\n";
    assert_eq!(scan_declarations(text), vec![Resource::module("m")]);
    let text = "locals {\n  a = <<EOT\n    }}}\n\t EOT \t\r\n}\nmodule \"m\" {}\n";
    assert_eq!(scan_declarations(text), vec![Resource::module("m")]);
}

#[test]
fn heredoc_ends_only_at_the_marker_alone() {
    let text = "a = <<EOF\nEOF2 {\nxEOF {\nEOF x {\nEO {\nEOF\nmodule \"m\" {}\n";
    assert_eq!(scan_declarations(text), vec![Resource::module("m")]);
}

#[test]
fn unterminated_heredoc_hides_the_rest() {
    let text = "module \"m\" {}\na = <<EOF\nresource \"a\" \"b\" {}\n";
    assert_eq!(scan_declarations(text), vec![Resource::module("m")]);
    assert_eq!(scan_declarations("a = <<EOF"), Vec::<Resource>::new());
}

#[test]
fn rest_of_the_opening_line_belongs_to_the_heredoc() {
    let text = "a = <<EOF {{{ \"\nx\nEOF\nmodule \"m\" {}\n";
    assert_eq!(scan_declarations(text), vec![Resource::module("m")]);
}

#[test]
fn heredoc_is_skipped_between_lexemes() {
    let tokens = tokenize(&chars("a = <<EOF\n{ x }\nEOF\nb"));
    assert_eq!(
        tokens,
        vec![
            Token { kind: TokenKind::Word, start: 0, end: 1 },
            Token { kind: TokenKind::Other, start: 2, end: 3 },
            Token { kind: TokenKind::Word, start: 20, end: 21 },
        ]
    );
}

#[test]
fn angle_brackets_without_marker_are_marks() {
    let tokens = tokenize(&chars("a << b"));
    assert_eq!(
        tokens,
        vec![
            Token { kind: TokenKind::Word, start: 0, end: 1 },
            Token { kind: TokenKind::Other, start: 2, end: 3 },
            Token { kind: TokenKind::Other, start: 3, end: 4 },
            Token { kind: TokenKind::Word, start: 5, end: 6 },
        ]
    );
    let tokens = tokenize(&chars("<<- {"));
    assert_eq!(
        tokens,
        vec![
            Token { kind: TokenKind::Other, start: 0, end: 1 },
            Token { kind: TokenKind::Other, start: 1, end: 2 },
            Token { kind: TokenKind::Word, start: 2, end: 3 },
            Token { kind: TokenKind::Open, start: 4, end: 5 },
        ]
    );
    let tokens = tokenize(&chars("<<"));
    assert_eq!(
        tokens,
        vec![
            Token { kind: TokenKind::Other, start: 0, end: 1 },
            Token { kind: TokenKind::Other, start: 1, end: 2 },
        ]
    );
    assert_eq!(tokenize(&chars("<")), vec![Token { kind: TokenKind::Other, start: 0, end: 1 }]);
}

#[test]
fn heredoc_in_a_string_or_comment_is_text() {
    let text = "a = \"<<EOF\"\nmodule \"m\" {}\n# <<EOF\nmodule \"n\" {}\n";
    assert_eq!(
        scan_declarations(text),
        vec![Resource::module("m"), Resource::module("n")]
    );
}
