use lisp0::reader::{read_text, AstContent, Output};
use lisp0::util::{ast_to_string, is_lisp_filename};

fn read_ok(text: &str, lisp: bool) -> Output {
    match read_text(text, "test".to_string(), lisp) {
        Ok(o) => o,
        Err(e) => panic!("unexpected reader error: {}", e.message),
    }
}

fn shape(text: &str, lisp: bool) -> String {
    ast_to_string(&read_ok(text, lisp).source)
}

fn read_err(text: &str, lisp: bool) -> (u32, u32, String) {
    match read_text(text, "test".to_string(), lisp) {
        Ok(o) => panic!("expected an error, read {}", ast_to_string(&o.source)),
        Err(e) => {
            assert_eq!(e.tag, "test");
            (e.at.line, e.at.column, e.message)
        }
    }
}

#[test]
fn l0_line_is_a_call() {
    assert_eq!(shape("print 1 2", false), "((\"print\", 1, 2))");
}

#[test]
fn l0_lines_split_on_newline_and_comma() {
    assert_eq!(shape("a 1\nb 2, c 3", false), "((\"a\", 1), (\"b\", 2), (\"c\", 3))");
}

#[test]
fn l0_lone_word_is_unwrapped() {
    assert_eq!(shape("x", false), "(\"x\")");
}

#[test]
fn strings_are_quoted() {
    assert_eq!(shape("print \"hi\"", false), "((\"print\", '\"hi\"))");
    assert_eq!(shape("print `a\\b`", false), "((\"print\", '\"a\\\\b\"))");
}

#[test]
fn string_escapes() {
    assert_eq!(shape("p \"a\\tb\\n\\\"\\\\\"", false), "((\"p\", '\"a\\tb\\n\\\"\\\\\"))");
}

#[test]
fn quote_of_word() {
    assert_eq!(shape("set 'x 3", false), "((\"set\", '\"x\", 3))");
}

#[test]
fn negative_numbers_and_minus() {
    assert_eq!(shape("- -5 -x", false), "((\"-\", -5, \"-x\"))");
}

#[test]
fn curly_block_is_quoted_lines() {
    assert_eq!(shape("f {a b, c}", false), "((\"f\", '((\"a\", \"b\"), \"c\")))");
}

#[test]
fn square_brackets_make_array() {
    assert_eq!(shape("print [1, 2 3]", false), "((\"print\", (\"make-array\", 1, (2, 3))))");
}

#[test]
fn round_parentheses_nest() {
    assert_eq!(shape("print (+ 1 2)", false), "((\"print\", (\"+\", 1, 2)))");
}

#[test]
fn comments_are_skipped() {
    assert_eq!(shape("a 1 # note\nb 2", false), "((\"a\", 1), (\"b\", 2))");
}

#[test]
fn backslash_continues_a_line() {
    assert_eq!(shape("a 1 \\\n  2", false), "((\"a\", 1, 2))");
}

#[test]
fn lisp_mode_reads_parenthesised_statements() {
    assert_eq!(shape("(print (+ 1 2))\n(x)", true), "((\"print\", (\"+\", 1, 2)), (\"x\"))");
}

#[test]
fn empty_input_is_empty_group() {
    assert_eq!(shape("", false), "()");
    let o = read_ok("", true);
    assert!(matches!(o.source.content, AstContent::Group(ref v) if v.is_empty()));
}

#[test]
fn source_tags() {
    let o = read_ok("x", false);
    assert_eq!(o.source_tag, vec!["<user-defined>".to_string(), "<internal>".to_string(), "test".to_string()]);
}

#[test]
fn positions_are_one_based() {
    let o = read_ok("ab cd\n  ef", false);
    match &o.source.content {
        AstContent::Group(lines) => {
            assert_eq!(lines.len(), 2);
            assert_eq!((lines[0].at.line, lines[0].at.column), (1, 1));
            match &lines[0].content {
                AstContent::Group(words) => assert_eq!((words[1].at.line, words[1].at.column), (1, 4)),
                _ => panic!("expected a group"),
            }
            assert_eq!((lines[1].at.line, lines[1].at.column), (2, 3));
            assert_eq!(lines[1].at.source, 2);
        }
        _ => panic!("expected a group"),
    }
}

#[test]
fn byte_order_mark_is_skipped() {
    assert_eq!(shape("\u{feff}x", false), "(\"x\")");
}

#[test]
fn newline_in_parentheses_is_an_error() {
    assert_eq!(read_err("(a\nb)", false), (1, 3, "Newline currently not allowed in (). Use \\.".to_string()));
}

#[test]
fn comma_in_lisp_mode_is_an_error() {
    assert_eq!(read_err("(a, b)", true).2, "Please don't use commas in LISP mode");
}

#[test]
fn unbalanced_close_is_an_error() {
    assert_eq!(read_err("a)", false), (1, 2, "Unbalanced extra ) parenthesis".to_string()));
}

#[test]
fn newline_inside_string_is_an_error() {
    assert_eq!(read_err("p \"ab\ncd\"", false).2, "Newline inside string");
}

#[test]
fn unknown_escape_is_an_error() {
    assert_eq!(read_err("p \"\\q\"", false).2, "Unrecognized backslash sequence \\q");
}

#[test]
fn illegal_char_is_an_error() {
    assert_eq!(read_err("a\u{a0}b", false), (1, 2, "Illegal unicode char: U+a0".to_string()));
}

#[test]
fn stray_quote_at_end_is_an_error() {
    assert_eq!(read_err("a '", false).2, "Stray ' at end of input");
}

#[test]
fn square_brackets_refused_in_lisp_mode() {
    assert_eq!(read_err("[1]", true).2, "No [ support in lisp mode");
}

#[test]
fn leading_comma_is_an_error() {
    assert_eq!(read_err(", a", false).2, "Unexpected comma at start of file");
}

#[test]
fn bad_number_is_an_error() {
    assert_eq!(read_err("12x", false).2, "Illegal character for number: x");
}

#[test]
fn lisp_filenames() {
    assert!(is_lisp_filename("prog.ls0"));
    assert!(is_lisp_filename(".ls0"));
    assert!(!is_lisp_filename("prog.l0"));
    assert!(!is_lisp_filename("ls0"));
    assert!(!is_lisp_filename("prog.ls0.txt"));
}

#[test]
fn hash_inside_a_word_starts_a_comment() {
    assert_eq!(shape("(x#c)\n)", true), "((\"x\"))");
    assert_eq!(shape("x#c", false), "(\"x\")");
    assert_eq!(shape("(5#c\n)", true), "((5))");
}

#[test]
fn quote_inside_a_word_belongs_to_the_word() {
    assert_eq!(shape("(x'y)", true), "((\"x'y\"))");
}

#[test]
fn unterminated_string_is_an_error() {
    let (_, _, m) = read_err("\"abc", true);
    assert_eq!(m, "Unterminated string at end of input");
}

#[test]
fn negative_numbers_keep_their_sign() {
    assert_eq!(shape("(-12 -05 0 -0)", true), "((-12, -5, 0, 0))");
}

#[test]
fn number_out_of_range_is_an_error() {
    let (_, _, m) = read_err("(99999999999999999999)", true);
    assert_eq!(m, "Number too large");
    assert_eq!(shape("(9223372036854775807 -9223372036854775808)", true), "((9223372036854775807, -9223372036854775808))");
}

#[test]
fn rendering_ignores_where_things_were_read() {
    assert_eq!(shape("(x  1\n'y)", true), shape("( x 1 'y )", true));
}
