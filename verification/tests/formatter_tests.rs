use std::collections::{HashSet, VecDeque};
use std::rc::Rc;
use tergo::ast::Expression;
use tergo::code::join_docs;
use tergo::config::{Config, FormattingConfig, FunctionLineBreaks};
use tergo::format::{
    format_to_sdoc, simple_doc_to_string, CommonProperties, Doc, GroupDocProperties, Mode,
    ShouldBreak,
};
use tergo::formatter::{format_code, format_expression};
use tergo::{tergo_format, try_tergo_format};
use tergo::tokens::{CommentedToken, Token};

struct MockConfig {
    line_length: i32,
    indent: i32,
}

impl FormattingConfig for MockConfig {
    fn line_length_spec(&self) -> i32 {
        self.line_length
    }
    fn indent_spec(&self) -> i32 {
        self.indent
    }
    fn line_length(&self) -> i32 {
        self.line_length
    }
    fn indent(&self) -> i32 {
        self.indent
    }
    fn embracing_op_no_nl(&self) -> bool {
        true
    }
    fn allow_nl_after_assignment(&self) -> bool {
        false
    }
    fn space_before_complex_rhs_in_formulas(&self) -> bool {
        true
    }
    fn strip_suffix_whitespace_in_function_defs(&self) -> bool {
        true
    }
    fn function_line_breaks(&self) -> FunctionLineBreaks {
        FunctionLineBreaks::Hanging
    }
    fn insert_newline_in_quote_call(&self) -> bool {
        true
    }
}

fn text(s: &str) -> Rc<Doc<'_>> {
    Rc::new(Doc::Text(s, s.chars().count(), CommonProperties::default()))
}

fn layout_string(doc: Rc<Doc<'_>>, line_length: i32) -> String {
    let mut docs = VecDeque::from([(0i32, Mode::Flat, doc)]);
    let mut broken = HashSet::new();
    let sdoc = format_to_sdoc(0, &mut docs, line_length, &mut broken);
    simple_doc_to_string(&sdoc)
}

#[test]
fn joining_docs_with_newlines_produces_newlines() {
    let docs = vec![text("test"), text("test2")];
    let mut doc_ref = 0;
    let joined = join_docs(docs, Rc::new(Doc::Nil), ShouldBreak::Yes, &mut doc_ref);
    assert_eq!(layout_string(joined, 120), "test\ntest2")
}

#[test]
fn joinin_docs_with_newlines_does_nothing_for_just_one_doc() {
    let docs = vec![text("test")];
    let mut doc_ref = 0;
    let joined = join_docs(docs, Rc::new(Doc::Nil), ShouldBreak::No, &mut doc_ref);
    assert_eq!(layout_string(joined, 120), "test")
}

#[test]
fn test_format_simple_bop() {
    let config = MockConfig { line_length: 0, indent: 0 };
    let commented_tokens = vec![
        CommentedToken::new(Token::Plus, 0, 0),
        CommentedToken::new(Token::Literal("1"), 0, 0),
        CommentedToken::new(Token::Literal("2"), 0, 0),
    ];
    let expression = Expression::Bop(
        &commented_tokens[0],
        Box::new(Expression::Literal(&commented_tokens[1])),
        Box::new(Expression::Literal(&commented_tokens[2])),
    );

    let formatted = format_code(expression, &config).unwrap();
    assert_eq!(formatted, "1 +\n2");
}

#[test]
fn printing_text_doc() {
    let doc = Rc::new(Doc::Text("Test", 4, CommonProperties::default()));
    assert_eq!(layout_string(doc, 120), "Test")
}

#[test]
fn should_break_breaks_even_when_fits_the_line() {
    let doc = Rc::new(Doc::Group(
        GroupDocProperties(
            Rc::new(Doc::Cons(
                Rc::new(Doc::Text("Test", 4, CommonProperties::default())),
                Rc::new(Doc::Cons(
                    Rc::new(Doc::Break(" ")),
                    Rc::new(Doc::Text("Test2", 5, CommonProperties::default())),
                    CommonProperties::default(),
                )),
                CommonProperties::default(),
            )),
            ShouldBreak::Yes,
        ),
        CommonProperties::default(),
    ));
    assert_eq!(layout_string(doc, 120), "Test\nTest2")
}

#[test]
fn group_that_fits_stays_on_one_line() {
    let doc = Rc::new(Doc::Group(
        GroupDocProperties(
            Rc::new(Doc::Cons(
                text("Test"),
                Rc::new(Doc::Cons(Rc::new(Doc::Break(" ")), text("Test2"), CommonProperties::default())),
                CommonProperties::default(),
            )),
            ShouldBreak::No,
        ),
        CommonProperties::default(),
    ));
    assert_eq!(layout_string(Rc::clone(&doc), 120), "Test Test2");
    assert_eq!(layout_string(doc, 5), "Test\nTest2");
}

#[test]
fn simple_bop_fits_a_long_line() {
    let config = MockConfig { line_length: 120, indent: 2 };
    let tokens = vec![
        CommentedToken::new(Token::Plus, 0, 0),
        CommentedToken::new(Token::Literal("1"), 0, 0),
        CommentedToken::new(Token::Literal("2"), 0, 0),
    ];
    let expression = Expression::Bop(
        &tokens[0],
        Box::new(Expression::Literal(&tokens[1])),
        Box::new(Expression::Literal(&tokens[2])),
    );
    assert_eq!(format_code(expression, &config).unwrap(), "1 + 2");
}

#[test]
fn tight_operators_have_no_spaces() {
    let tokens = vec![
        CommentedToken::new(Token::Dollar, 0, 0),
        CommentedToken::new(Token::Symbol("a"), 0, 0),
        CommentedToken::new(Token::Symbol("b"), 0, 0),
    ];
    let expression = Expression::Bop(
        &tokens[0],
        Box::new(Expression::Symbol(&tokens[1])),
        Box::new(Expression::Symbol(&tokens[2])),
    );
    assert_eq!(format_expression(&expression, 2, 0).unwrap(), "a$b");
}

#[test]
fn formatting_refuses_a_negative_indent_and_unknown_operators() {
    let tokens = vec![
        CommentedToken::new(Token::Comma, 0, 0),
        CommentedToken::new(Token::Literal("1"), 0, 0),
        CommentedToken::new(Token::Literal("2"), 0, 0),
    ];
    let expression = Expression::Bop(
        &tokens[0],
        Box::new(Expression::Literal(&tokens[1])),
        Box::new(Expression::Literal(&tokens[2])),
    );
    assert_eq!(format_expression(&expression, 2, 120), None);
    let literal = Expression::Literal(&tokens[1]);
    assert_eq!(format_expression(&literal, -1, 120), None);
    assert_eq!(format_expression(&literal, 2, 120), Some("1".to_string()));
}

#[test]
fn tergo_format_formats_a_program() {
    let config = Config::default();
    assert_eq!(tergo_format("1+2", Some(&config)).unwrap(), "1 + 2\n");
    assert_eq!(tergo_format("1+2", None).unwrap(), "1 + 2\n");
    let narrow = Config::new(0, 0, true, false, true, true, FunctionLineBreaks::Hanging, true);
    assert_eq!(tergo_format("1+2", Some(&narrow)).unwrap(), "1 +\n2\n");
}

#[test]
fn tergo_format_reports_code_it_cannot_parse() {
    assert_eq!(
        tergo_format("1 + )", None),
        Err("Could not parse: Literal(\"1\") Plus RParen EOF".to_string())
    );
}

#[test]
fn formatting_keeps_the_tokens_of_a_call() {
    let formatted = tergo_format("f(a,b)", None).unwrap();
    assert_eq!(formatted, "f(a, b)\n");
}

fn without_layout(s: &str) -> String {
    s.chars().filter(|c| *c != ' ' && *c != '\n').collect()
}

#[test]
fn formatting_changes_only_spaces_and_line_breaks() {
    let programs = [
        "x<-1+2*3",
        "if(a){b}else{c}",
        "if (a) b else if (c) d else e",
        "f<-function(x,y=2){x+y}",
        "for(i in 1:10){print(i)}",
        "while(TRUE){break}",
        "repeat{next}",
        "a$b[[1]][2]",
        "\\(x) x^2",
        "x |> f(y = 1, z)",
    ];
    for narrow in [false, true] {
        let config = if narrow {
            Config::new(2, 5, true, false, true, true, FunctionLineBreaks::Hanging, true)
        } else {
            Config::default()
        };
        for program in programs {
            let formatted = tergo_format(program, Some(&config)).unwrap();
            assert_eq!(without_layout(&formatted), without_layout(program), "{}", program);
        }
    }
}

#[test]
fn formatting_keeps_tokens_but_statement_semicolons() {
    let programs = ["f(a,\n  b); g(c)", "x <- 1;\ny <- (\n2\n)", "{\n  b;\n}"];
    for program in programs {
        let formatted = tergo_format(program, None).unwrap();
        let expected: String = without_layout(program).chars().filter(|c| *c != ';').collect();
        assert_eq!(without_layout(&formatted), expected, "{}", program);
    }
}

#[test]
fn formatting_keeps_comments() {
    let programs = [
        "# c\nx <- 1 # d\ny",
        "# only a comment\n",
        "# one\n# two\nf(a)",
        "f(a) # after a call\ng(b)",
    ];
    for program in programs {
        let formatted = tergo_format(program, None).unwrap();
        assert_eq!(without_layout(&formatted), without_layout(program), "{}", program);
    }
    let formatted = tergo_format("# c\nx <- 1 # d\ny", None).unwrap();
    assert!(formatted.starts_with("# c\n"), "{}", formatted);
    assert!(formatted.contains("1 # d\n"), "{}", formatted);
}

#[test]
fn printing_a_config_shows_its_main_settings() {
    assert_eq!(
        Config::default().to_string(),
        "indent: 2 line_length: 120 allow_nl_after_assignment: false"
    );
    let config = Config::new(-4, 1234567, true, true, true, true, FunctionLineBreaks::Single, false);
    assert_eq!(
        config.to_string(),
        "indent: -4 line_length: 1234567 allow_nl_after_assignment: true"
    );
}

#[test]
fn printing_documents_names_their_parts() {
    let props = CommonProperties(tergo::format::InlineCommentPosition::No, 0);
    let cons = Doc::Cons(text("a"), Rc::new(Doc::Break(" ")), props);
    assert_eq!(cons.to_string(), "'a' + NL( )");
    let nest = Doc::Nest(2, Rc::new(Doc::Nil), props);
    assert_eq!(nest.to_string(), "Nest2(Nil)");
    let nest_if_break = Doc::NestIfBreak(-3, text("b"), props, 17);
    assert_eq!(nest_if_break.to_string(), "NestIfBreak-3<if17>('b')");
    let group = Doc::Group(
        GroupDocProperties(text("c"), ShouldBreak::Yes),
        CommonProperties(tergo::format::InlineCommentPosition::No, 305),
    );
    assert_eq!(group.to_string(), "SB:<ref305>Yes<'c'>");
}

#[test]
fn try_tergo_format_reads_only_what_the_tokenizer_reads() {
    assert_eq!(try_tergo_format("1+2", None), Some(Ok("1 + 2\n".to_string())));
    assert_eq!(try_tergo_format("x <- 'abc", None), None);
}

#[test]
fn format_code_uses_the_configuration_it_is_given() {
    let tokens = [
        CommentedToken::new(Token::Plus, 0, 0),
        CommentedToken::new(Token::Literal("1"), 0, 0),
        CommentedToken::new(Token::Literal("2"), 0, 0),
    ];
    let bop = || {
        Expression::Bop(
            &tokens[0],
            Box::new(Expression::Literal(&tokens[1])),
            Box::new(Expression::Literal(&tokens[2])),
        )
    };
    let wide = MockConfig { line_length: 120, indent: 0 };
    assert_eq!(format_code(bop(), &wide), Some("1 + 2".to_string()));
    let narrow = MockConfig { line_length: 0, indent: 3 };
    assert_eq!(format_code(bop(), &narrow), Some("1 +\n   2".to_string()));
}

#[test]
fn logical_and_modulo_operators_print_as_written() {
    assert_eq!(tergo_format("a&&b|c", None).unwrap(), "a && b | c\n");
    assert_eq!(tergo_format("a||b&c", None).unwrap(), "a || b & c\n");
    assert_eq!(tergo_format("a%%b", None).unwrap(), "a %% b\n");
}

#[test]
fn binary_operations_on_one_line_join_their_operands() {
    assert_eq!(tergo_format("x$y+z", None).unwrap(), "x$y + z\n");
    assert_eq!(tergo_format("a::b*c@d", None).unwrap(), "a::b * c@d\n");
}
