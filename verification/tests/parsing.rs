use nadi_tasks::token::tokenize;
use nadi_tasks::parser::{parse, ParseErrorKind};
use nadi_tasks::ast::{Scope, ArgValue, TaskStatement};

fn parse_src(src: &str) -> Result<Vec<TaskStatement>, nadi_tasks::parser::ParseError> {
    parse(&tokenize(src).unwrap())
}

#[test]
fn empty_script_parses_to_zero_statements() {
    assert_eq!(parse_src("").unwrap().len(), 0);
    assert_eq!(parse_src("   \n\n  # only a comment\n;;\n").unwrap().len(), 0);
}

#[test]
fn plain_call_is_network_scope() {
    let sts = parse_src("load_network(\"net.txt\")").unwrap();
    assert_eq!(sts.len(), 1);
    assert_eq!(sts[0].scope, Scope::Network);
    assert_eq!(sts[0].name, "load_network");
    assert_eq!(sts[0].args.len(), 1);
    assert_eq!(sts[0].args[0].name, None);
    assert_eq!(sts[0].args[0].value, ArgValue::Str("net.txt".to_string()));
}

#[test]
fn node_receiver_argument_marks_node_scope() {
    let sts = parse_src("set_attr(node=\"A\", key=\"x\", value=\"1\")").unwrap();
    assert_eq!(sts[0].scope, Scope::Node);
    assert_eq!(sts[0].name, "set_attr");
    assert_eq!(sts[0].args[0].name.as_deref(), Some("node"));
}

#[test]
fn explicit_prefixes_fix_the_scope() {
    let sts = parse_src("node.render(\"x\")\nnetwork.save()").unwrap();
    assert_eq!(sts[0].scope, Scope::Node);
    assert_eq!(sts[0].name, "render");
    assert_eq!(sts[1].scope, Scope::Network);
    assert_eq!(sts[1].name, "save");
}

#[test]
fn statement_positions_are_recorded() {
    let sts = parse_src("a()\n  b()").unwrap();
    assert_eq!((sts[0].line, sts[0].col), (1, 1));
    assert_eq!((sts[1].line, sts[1].col), (2, 3));
}

#[test]
fn argument_values_are_typed() {
    let sts = parse_src("f(1, true, false, name, \"s\")").unwrap();
    let vals: Vec<ArgValue> = sts[0].args.iter().map(|a| a.value.clone()).collect();
    assert_eq!(
        vals,
        vec![
            ArgValue::Int(1),
            ArgValue::Bool(true),
            ArgValue::Bool(false),
            ArgValue::Ident("name".to_string()),
            ArgValue::Str("s".to_string()),
        ]
    );
}

#[test]
fn string_escapes_are_applied() {
    let sts = parse_src("f(\"a\\\"b\\\\c\\nd\\te\")").unwrap();
    assert_eq!(
        sts[0].args[0].value,
        ArgValue::Str("a\"b\\c\nd\te".to_string())
    );
}

#[test]
fn newlines_allowed_inside_argument_lists() {
    let sts = parse_src("f(\n  a = 1,\n  b = 2\n)").unwrap();
    assert_eq!(sts[0].args.len(), 2);
    assert_eq!(sts[0].args[0].name.as_deref(), Some("a"));
    assert_eq!(sts[0].args[1].name.as_deref(), Some("b"));
}

#[test]
fn semicolons_and_newlines_separate_statements() {
    let sts = parse_src("a(); b()\nc()").unwrap();
    assert_eq!(sts.len(), 3);
}

#[test]
fn largest_integer_parses_and_overflow_is_an_error() {
    let sts = parse_src("f(9223372036854775807)").unwrap();
    assert_eq!(sts[0].args[0].value, ArgValue::Int(i64::MAX));
    let e = parse_src("f(9223372036854775808)").unwrap_err();
    assert_eq!(e.kind, ParseErrorKind::NumberTooLarge);
}

#[test]
fn unterminated_argument_list_fails_on_line_one() {
    let e = parse_src("foo(").unwrap_err();
    assert_eq!(e.kind, ParseErrorKind::UnexpectedEnd);
    assert_eq!(e.line, 1);
}

#[test]
fn stray_token_is_an_unexpected_token_error() {
    let e = parse_src("foo() bar()").unwrap_err();
    assert_eq!(e.kind, ParseErrorKind::UnexpectedToken);
    assert_eq!((e.line, e.col), (1, 7));
    let e2 = parse_src("(x)").unwrap_err();
    assert_eq!(e2.kind, ParseErrorKind::UnexpectedToken);
}

#[test]
fn comments_and_whitespace_are_non_semantic() {
    let a = parse_src("load_network(\"n\")\nset_attr(node=\"A\", key=\"k\", value=1)").unwrap();
    let b = parse_src(
        "  # load it first\n load_network( \"n\" )  \n\n # then set\n set_attr(node = \"A\",\n key = \"k\", value = 1) # done\n",
    )
    .unwrap();
    assert_eq!(a.len(), b.len());
    for (x, y) in a.iter().zip(b.iter()) {
        assert_eq!(x.scope, y.scope);
        assert_eq!(x.name, y.name);
        assert_eq!(x.args, y.args);
    }
}

#[test]
fn canonical_source_form() {
    let sts = parse_src("set_attr(node=\"A\", key=\"x\", value=1)").unwrap();
    assert_eq!(
        sts[0].to_source(),
        "node.set_attr(node=\"A\", key=\"x\", value=1)"
    );
    let sts2 = parse_src("load_network(\"net.txt\")").unwrap();
    assert_eq!(sts2[0].to_source(), "network.load_network(\"net.txt\")");
}

#[test]
fn negative_and_escaped_values_serialize_back() {
    let st = TaskStatement {
        scope: Scope::Node,
        name: "f".to_string(),
        args: vec![
            nadi_tasks::ast::Arg { name: None, value: ArgValue::Int(-42) },
            nadi_tasks::ast::Arg { name: None, value: ArgValue::Str("a\"b\nc".to_string()) },
            nadi_tasks::ast::Arg { name: None, value: ArgValue::Bool(true) },
        ],
        line: 1,
        col: 1,
    };
    assert_eq!(st.to_source(), "node.f(-42, \"a\\\"b\\nc\", true)");
}

#[test]
fn round_trip_of_canonical_form_is_stable() {
    let srcs = [
        "load_network(\"net.txt\")",
        "set_attr(node=\"A\", key=\"x\", value=1)",
        "node.get_attr(node=\"A\", key=\"x\")",
        "network.node_count()",
        "f(\"quote \\\" and line\\nbreak\", n=123, b=false, id)",
    ];
    for src in srcs.iter() {
        let once = parse_src(src).unwrap();
        let canon = once[0].to_source();
        let twice = parse_src(&canon).unwrap();
        assert_eq!(twice.len(), 1);
        assert_eq!(once[0].scope, twice[0].scope);
        assert_eq!(once[0].name, twice[0].name);
        assert_eq!(once[0].args, twice[0].args);
        // and the canonical form is a fixed point
        assert_eq!(twice[0].to_source(), canon);
    }
}
