use nadi_tasks::token::tokenize;
use nadi_tasks::parser::parse;
use nadi_tasks::ast::{Scope, TaskStatement};
use nadi_tasks::network::{Network, AttrValue};
use nadi_tasks::registry::Registry;
use nadi_tasks::context::{Context, DiagnosticKind};

fn stmts(src: &str) -> Vec<TaskStatement> {
    parse(&tokenize(src).unwrap()).unwrap()
}

fn net_with_node_a() -> Network {
    let mut net = Network::new();
    assert!(net.add_node("A".to_string()));
    net
}

#[test]
fn empty_run_is_a_noop_success() {
    let mut ctx = Context::new(None);
    let outs = ctx.execute_all(&stmts("")).unwrap();
    assert_eq!(outs.len(), 0);
    assert!(ctx.network.is_none());
}

#[test]
fn node_call_without_network_is_missing_network() {
    let mut ctx = Context::new(None);
    let ss = stmts("set_attr(node=\"A\", key=\"x\", value=\"1\")");
    let d = ctx.execute(&ss[0]).unwrap_err();
    assert_eq!(d.kind, DiagnosticKind::MissingNetwork);
    assert_eq!(d.message, "no network loaded");
    assert_eq!(d.span.map(|s| (s.line, s.col)), Some((1, 1)));
    // the (absent) network state is unaffected
    assert!(ctx.network.is_none());
}

#[test]
fn unknown_function_names_the_exact_name_and_scope() {
    let mut ctx = Context::new(None);
    let ss = stmts("frobnicate(1)\nnode.paint(node=\"A\")");
    let d = ctx.execute(&ss[0]).unwrap_err();
    assert_eq!(d.kind, DiagnosticKind::UnknownFunction);
    assert_eq!(d.message, "unknown network function: frobnicate");
    let d2 = ctx.execute(&ss[1]).unwrap_err();
    assert_eq!(d2.kind, DiagnosticKind::UnknownFunction);
    assert_eq!(d2.message, "unknown node function: paint");
}

#[test]
fn a_failing_statement_stops_the_run() {
    let mut ctx = Context::new(None);
    ctx.provide_network("net.txt".to_string(), net_with_node_a());
    // the unknown function fails before the load ever runs
    let ss = stmts("frobnicate(1); load_network(\"net.txt\")");
    let d = ctx.execute_all(&ss).unwrap_err();
    assert_eq!(d.kind, DiagnosticKind::UnknownFunction);
    assert!(ctx.network.is_none());
}

#[test]
fn load_set_get_scenario() {
    let mut ctx = Context::new(None);
    ctx.provide_network("net.txt".to_string(), net_with_node_a());
    let ss = stmts("load_network(\"net.txt\"); set_attr(node=\"A\", key=\"x\", value=\"1\")");
    let outs = ctx.execute_all(&ss).unwrap();
    assert_eq!(outs.len(), 0);
    let get = stmts("get_attr(node=\"A\", key=\"x\")");
    let out = ctx.execute(&get[0]).unwrap();
    assert_eq!(out, Some(AttrValue::Str("1".to_string())));
}

#[test]
fn state_carries_forward_across_statements() {
    let mut ctx = Context::new(None);
    ctx.provide_network("n".to_string(), net_with_node_a());
    let ss = stmts(
        "load_network(\"n\")\nset_attr(node=\"A\", key=\"k\", value=7)\nget_attr(node=\"A\", key=\"k\")\nnode_count()",
    );
    let outs = ctx.execute_all(&ss).unwrap();
    assert_eq!(outs, vec![AttrValue::Int(7), AttrValue::Int(1)]);
}

#[test]
fn loading_an_unknown_source_fails() {
    let mut ctx = Context::new(None);
    let ss = stmts("load_network(\"missing.txt\")");
    let d = ctx.execute(&ss[0]).unwrap_err();
    assert_eq!(d.kind, DiagnosticKind::ExecutionFailure);
    assert_eq!(d.message, "no network source: missing.txt");
    assert!(ctx.network.is_none());
}

#[test]
fn setting_an_unknown_node_fails() {
    let mut ctx = Context::new(None);
    ctx.provide_network("n".to_string(), net_with_node_a());
    let ss = stmts("load_network(\"n\"); set_attr(node=\"B\", key=\"x\", value=1)");
    let d = ctx.execute_all(&ss).unwrap_err();
    assert_eq!(d.kind, DiagnosticKind::ExecutionFailure);
    assert_eq!(d.message, "no such node: B");
}

#[test]
fn reading_an_unknown_attribute_fails() {
    let mut ctx = Context::new(Some(net_with_node_a()));
    let ss = stmts("get_attr(node=\"A\", key=\"nope\")");
    let d = ctx.execute(&ss[0]).unwrap_err();
    assert_eq!(d.kind, DiagnosticKind::ExecutionFailure);
    assert_eq!(d.message, "no such attribute: nope");
}

#[test]
fn missing_or_malformed_arguments_fail() {
    let mut ctx = Context::new(Some(net_with_node_a()));
    let d = ctx.execute(&stmts("node.set_attr(key=\"x\", value=1)")[0]).unwrap_err();
    assert_eq!(d.message, "missing node argument");
    let d2 = ctx.execute(&stmts("set_attr(node=\"A\", value=1)")[0]).unwrap_err();
    assert_eq!(d2.message, "missing key argument");
    let d3 = ctx.execute(&stmts("set_attr(node=\"A\", key=\"x\")")[0]).unwrap_err();
    assert_eq!(d3.message, "missing value argument");
    let d4 = ctx.execute(&stmts("load_network(1)")[0]).unwrap_err();
    assert_eq!(d4.message, "load_network expects one string argument");
}

#[test]
fn node_count_without_network_fails() {
    let mut ctx = Context::new(None);
    let d = ctx.execute(&stmts("node_count()")[0]).unwrap_err();
    assert_eq!(d.kind, DiagnosticKind::ExecutionFailure);
    assert_eq!(d.message, "no network loaded");
}

#[test]
fn setting_overwrites_an_existing_attribute() {
    let mut ctx = Context::new(Some(net_with_node_a()));
    let ss = stmts(
        "set_attr(node=\"A\", key=\"x\", value=1); set_attr(node=\"A\", key=\"x\", value=2); get_attr(node=\"A\", key=\"x\")",
    );
    let outs = ctx.execute_all(&ss).unwrap();
    assert_eq!(outs, vec![AttrValue::Int(2)]);
}

#[test]
fn registry_lookup_help_code() {
    let reg = Registry::standard();
    assert!(reg.lookup(Scope::Network, "load_network").is_some());
    assert!(reg.lookup(Scope::Node, "load_network").is_none());
    assert!(reg.lookup(Scope::Node, "set_attr").is_some());
    assert_eq!(reg.help("set_attr").unwrap(), "set one attribute of one node");
    assert_eq!(reg.code("load_network").unwrap(), "load_network(path)");
    assert!(reg.help("nope").is_none());
    assert!(reg.code("nope").is_none());
}

#[test]
fn registry_rejects_duplicates() {
    let mut reg = Registry::standard();
    let dup = nadi_tasks::registry::FunctionEntry {
        name: "set_attr".to_string(),
        scope: Scope::Node,
        help: String::new(),
        code: String::new(),
        kind: nadi_tasks::registry::FuncKind::SetAttr,
    };
    assert!(!reg.register(dup));
    let fresh = nadi_tasks::registry::FunctionEntry {
        name: "set_attr".to_string(),
        scope: Scope::Network,
        help: String::new(),
        code: String::new(),
        kind: nadi_tasks::registry::FuncKind::SetAttr,
    };
    // same name in the other namespace is allowed
    assert!(reg.register(fresh));
}

#[test]
fn listing_twice_gives_the_same_ordered_output() {
    let reg = Registry::standard();
    let a = reg.list();
    let b = reg.list();
    assert_eq!(a, b);
    let names: Vec<String> = a.iter().map(|e| e.name.clone()).collect();
    assert_eq!(names, vec!["set_attr", "get_attr", "load_network", "node_count"]);
    // grouped by scope: node functions first
    assert!(a[0].scope == Scope::Node && a[1].scope == Scope::Node);
    assert!(a[2].scope == Scope::Network && a[3].scope == Scope::Network);
}

#[test]
fn a_custom_registry_controls_dispatch() {
    let mut reg = Registry::new();
    assert!(reg.register(nadi_tasks::registry::FunctionEntry {
        name: "count".to_string(),
        scope: Scope::Network,
        help: "count the nodes".to_string(),
        code: "count()".to_string(),
        kind: nadi_tasks::registry::FuncKind::NodeCount,
    }));
    let mut ctx = Context::with_registry(Some(net_with_node_a()), reg);
    let out = ctx.execute(&stmts("count()")[0]).unwrap();
    assert_eq!(out, Some(AttrValue::Int(1)));
    // the built-in name is not in this snapshot
    let d = ctx.execute(&stmts("node_count()")[0]).unwrap_err();
    assert_eq!(d.kind, DiagnosticKind::UnknownFunction);
    assert_eq!(d.message, "unknown network function: node_count");
}

#[test]
fn network_nodes_and_edges() {
    let mut net = Network::new();
    assert!(net.add_node("A".to_string()));
    assert!(net.add_node("B".to_string()));
    assert!(!net.add_node("A".to_string()));
    assert_eq!(net.node_count(), 2);
    assert!(net.add_edge("A", "B"));
    assert!(!net.add_edge("A", "C"));
    assert_eq!(net.edges, vec![(0, 1)]);
    assert_eq!(net.find_node("B"), Some(1));
    assert_eq!(net.find_node("C"), None);
}

#[test]
fn network_attributes() {
    let mut net = net_with_node_a();
    assert!(net.set_attr("A", "x", AttrValue::Int(3)));
    assert!(!net.set_attr("B", "x", AttrValue::Int(3)));
    assert_eq!(net.get_attr("A", "x"), Some(AttrValue::Int(3)));
    assert_eq!(net.get_attr("A", "y"), None);
    assert_eq!(net.get_attr("B", "x"), None);
}
