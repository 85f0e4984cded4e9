use epok::cli::{split_on_commas, BatchOpts, Executor, Opts, SshHost};
use epok::operator::{make_rules, plan, short_id, wrap_backend_result, Backend, DeleteFilter, Error, Operator, Plan, Rule};
use epok::order::{compare_text, Compared};
use epok::ordered::Ordered;
use epok::res::{ExternalPorts, Interface, Node, PortSpec, Proto, Service};
use epok::memory::MemoryBackend;
use epok::set::OrderedSet;
use epok::state::{apply, Event, Op, Ops, State};
use epok::text::{contains, prefix};

fn node(name: &str, addr: &str) -> Node {
    Node { name: name.to_string(), addr: addr.to_string(), is_active: true }
}

fn service(name: &str, host_port: u16, node_port: u16) -> Service {
    Service {
        name: name.to_string(),
        namespace: "default".to_string(),
        external_ports: ExternalPorts { specs: vec![PortSpec::new_tcp(host_port, node_port)] },
        is_internal: false,
        allow_range: None,
    }
}

fn names(set: &OrderedSet<Node>) -> Vec<String> {
    (0..set.len()).map(|i| set.get(i).name.clone()).collect()
}

fn service_names(set: &OrderedSet<Service>) -> Vec<String> {
    (0..set.len()).map(|i| set.get(i).name.clone()).collect()
}

#[derive(Default)]
struct RecordingBackend {
    rules: Vec<Rule>,
    calls: Vec<String>,
    fail_apply: bool,
    fail_delete: bool,
}

impl Backend for RecordingBackend {
    fn read_state(&mut self) {
        self.calls.push("read".to_string());
    }

    fn apply_rules(&mut self, rules: Vec<Rule>) -> Result<(), Error> {
        self.calls.push(format!("apply {}", rules.len()));
        if self.fail_apply {
            return Err(Error::Backend("apply failed".to_string()));
        }
        self.rules.extend(rules);
        Ok(())
    }

    fn delete_rules(&mut self, filter: &DeleteFilter) -> Result<(), Error> {
        self.calls.push("delete".to_string());
        if self.fail_delete {
            return Err(Error::Backend("delete failed".to_string()));
        }
        self.rules
            .retain(|r| !filter.matches(format!("{} {}", r.rule_id(), r.service_id()).as_str()));
        Ok(())
    }
}

fn base_state() -> State {
    State::default()
        .with_interfaces(vec![Interface::new("eth0")])
        .with_nodes(vec![node("n1", "10.0.0.1")])
}

#[test]
fn text_order_is_lexicographic() {
    assert_eq!(compare_text("a", "b"), Compared::Less);
    assert_eq!(compare_text("ab", "a"), Compared::Greater);
    assert_eq!(compare_text("abc", "abc"), Compared::Equal);
    assert_eq!(compare_text("", "a"), Compared::Less);
    assert_eq!(compare_text("Z", "a"), Compared::Less);
}

#[test]
fn port_order_compares_fields_in_turn() {
    let a = PortSpec::new_tcp(1, 9);
    let b = PortSpec::new_tcp(2, 0);
    let c = PortSpec { host_port: 1, node_port: 9, proto: Proto::Udp };
    assert_eq!(a.compare(&b), Compared::Less);
    assert_eq!(a.compare(&c), Compared::Less);
    assert_eq!(c.compare(&a), Compared::Greater);
    assert_eq!(a.compare(&a), Compared::Equal);
    let short = ExternalPorts { specs: vec![a] };
    let long = ExternalPorts { specs: vec![a, b] };
    assert_eq!(short.compare(&long), Compared::Less);
    assert_eq!(long.compare(&short), Compared::Greater);
}

#[test]
fn node_and_service_order() {
    assert_eq!(node("a", "2").compare(&node("b", "1")), Compared::Less);
    assert_eq!(node("a", "2").compare(&node("a", "1")), Compared::Greater);
    let inactive = Node { is_active: false, ..node("a", "1") };
    assert_eq!(inactive.compare(&node("a", "1")), Compared::Less);
    assert_eq!(service("a", 1, 1).compare(&service("a", 1, 1)), Compared::Equal);
    assert_eq!(service("a", 1, 1).compare(&service("a", 2, 1)), Compared::Less);
    assert_eq!(service("a", 1, 1).compare(&service("a", 1, 1).internal()), Compared::Less);
    let ranged = Service { allow_range: Some("1.2.3.4/32".to_string()), ..service("a", 1, 1) };
    assert_eq!(service("a", 1, 1).compare(&ranged), Compared::Less);
    let iface = Interface::new("eth0");
    assert_eq!(iface.compare(&Interface::new("eth0").external()), Compared::Less);
}

#[test]
fn ordered_set_sorts_and_dedups() {
    let set = OrderedSet::from_vec(vec![node("c", "3"), node("a", "1"), node("b", "2"), node("a", "1")]);
    assert_eq!(names(&set), vec!["a", "b", "c"]);
    assert_eq!(set.len(), 3);
    assert!(set.contains(&node("b", "2")));
    assert!(!set.contains(&node("b", "9")));
}

#[test]
fn ordered_set_insert_reports_news() {
    let mut set = OrderedSet::new();
    assert!(set.is_empty());
    assert!(set.insert(node("b", "2")));
    assert!(set.insert(node("a", "1")));
    assert!(!set.insert(node("a", "1")));
    assert_eq!(names(&set), vec!["a", "b"]);
}

#[test]
fn ordered_set_difference_and_equality() {
    let a = OrderedSet::from_vec(vec![node("a", "1"), node("b", "2"), node("c", "3")]);
    let b = OrderedSet::from_vec(vec![node("b", "2"), node("d", "4")]);
    let d = a.difference(&b);
    assert_eq!(names(&d), vec!["a", "c"]);
    assert!(a.equals(&a.duplicate()));
    assert!(!a.equals(&b));
}

#[test]
fn state_is_empty() {
    assert!(State::default().is_empty());
    assert!(State::new().is_empty());
    assert!(!base_state().is_empty());
    // interfaces are not counted
    assert!(State::default().with_interfaces(vec![Interface::new("eth0")]).is_empty());
}

#[test]
fn state_diff_reports_added_and_removed() {
    let prev = base_state().with_services(vec![service("a", 1, 1), service("b", 2, 2)]);
    let cur = base_state()
        .with_services(vec![service("b", 2, 2), service("c", 3, 3)])
        .with_nodes(vec![node("n1", "10.0.0.1"), node("n2", "10.0.0.2")]);
    let (added, removed) = cur.diff(&prev);
    assert_eq!(service_names(&added.services), vec!["c"]);
    assert_eq!(names(&added.nodes), vec!["n2"]);
    assert_eq!(added.interfaces, vec![Interface::new("eth0")]);
    assert_eq!(service_names(&removed.services), vec!["a"]);
    assert!(removed.nodes.is_empty());
    assert_eq!(removed.interfaces, vec![Interface::new("eth0")]);
}

#[test]
fn state_diff_restores_current() {
    // the previous services without the removed ones, plus the added ones, are the current ones
    let prev = base_state().with_services(vec![service("a", 1, 1), service("b", 2, 2)]);
    let cur = base_state().with_services(vec![service("b", 2, 2), service("c", 3, 3)]);
    let (added, removed) = cur.diff(&prev);
    let mut rebuilt = prev.services.difference(&removed.services);
    for i in 0..added.services.len() {
        rebuilt.insert(added.services.get(i).clone());
    }
    assert!(rebuilt.equals(&cur.services));
}

#[test]
fn op_apply_each_kind() {
    let mut state = base_state();
    Op::NodeAdd(node("n0", "10.0.0.0")).apply(&mut state);
    assert_eq!(names(&state.nodes), vec!["n0", "n1"]);
    Op::NodeRemove("n1".to_string()).apply(&mut state);
    assert_eq!(names(&state.nodes), vec!["n0"]);
    Op::ServiceAdd(service("a", 1, 1)).apply(&mut state);
    Op::ServiceAdd(service("a", 2, 2)).apply(&mut state);
    assert_eq!(state.services.len(), 2);
    Op::ServiceRemove("default/a".to_string()).apply(&mut state);
    assert!(state.services.is_empty());
    assert_eq!(state.interfaces.len(), 1);
}

#[test]
fn op_apply_is_idempotent() {
    let ops = vec![
        Op::NodeAdd(node("n2", "10.0.0.2")),
        Op::NodeRemove("n1".to_string()),
        Op::ServiceAdd(service("a", 1, 1)),
        Op::ServiceRemove("default/a".to_string()),
    ];
    for op in ops {
        let mut once = base_state().with_services(vec![service("a", 1, 1)]);
        op.apply(&mut once);
        let mut twice = once.clone();
        op.apply(&mut twice);
        assert!(once.nodes.equals(&twice.nodes));
        assert!(once.services.equals(&twice.services));
    }
}

#[test]
fn apply_runs_ops_in_order() {
    let mut state = base_state();
    apply(
        &vec![Op::ServiceAdd(service("a", 1, 1)), Op::ServiceRemove("default/a".to_string())],
        &mut state,
    );
    assert!(state.services.is_empty());
    apply(
        &vec![Op::ServiceRemove("default/a".to_string()), Op::ServiceAdd(service("a", 1, 1))],
        &mut state,
    );
    assert_eq!(state.services.len(), 1);
}

#[test]
fn service_helpers() {
    let svc = service("web", 80, 30080);
    assert_eq!(svc.fqn(), "default/web");
    assert!(svc.has_external_port());
    let none = Service { external_ports: ExternalPorts { specs: vec![] }, ..service("x", 1, 1) };
    assert!(!none.has_external_port());
    assert!(svc.clone().internal().is_internal);
    let iface = Interface::new("eth1");
    assert_eq!(iface.name, "eth1");
    assert!(!iface.is_external);
    assert!(iface.external().is_external);
}

#[test]
fn service_events_become_ops() {
    let applied = Ops::from_service_event(Event::Applied(Some(service("a", 1, 1))));
    assert_eq!(applied.0.len(), 2);
    assert!(matches!(&applied.0[0], Op::ServiceRemove(f) if f == "default/a"));
    assert!(matches!(&applied.0[1], Op::ServiceAdd(s) if s.name == "a"));

    let portless = Service { external_ports: ExternalPorts { specs: vec![] }, ..service("b", 1, 1) };
    let applied = Ops::from_service_event(Event::Applied(Some(portless.clone())));
    assert_eq!(applied.0.len(), 1);
    assert!(matches!(&applied.0[0], Op::ServiceRemove(f) if f == "default/b"));

    let restarted = Ops::from_service_event(Event::Restarted(vec![
        Some(service("a", 1, 1)),
        None,
        Some(portless),
        Some(service("c", 3, 3)),
    ]));
    assert_eq!(restarted.0.len(), 2);
    assert!(matches!(&restarted.0[0], Op::ServiceAdd(s) if s.name == "a"));
    assert!(matches!(&restarted.0[1], Op::ServiceAdd(s) if s.name == "c"));

    let deleted = Ops::from_service_event(Event::Deleted(Some(service("a", 1, 1))));
    assert_eq!(deleted.0.len(), 1);
    assert!(matches!(&deleted.0[0], Op::ServiceRemove(f) if f == "default/a"));

    assert!(Ops::from_service_event(Event::Applied(None)).0.is_empty());
    assert!(Ops::from_service_event(Event::Deleted(None)).0.is_empty());
}

#[test]
fn node_events_become_ops() {
    let applied = Ops::from_node_event(Event::Applied(Some(node("n", "1"))));
    assert_eq!(applied.0.len(), 2);
    assert!(matches!(&applied.0[0], Op::NodeRemove(n) if n == "n"));
    assert!(matches!(&applied.0[1], Op::NodeAdd(n) if n.name == "n"));

    let inactive = Node { is_active: false, ..node("m", "2") };
    let applied = Ops::from_node_event(Event::Applied(Some(inactive.clone())));
    assert_eq!(applied.0.len(), 1);

    let restarted =
        Ops::from_node_event(Event::Restarted(vec![Some(inactive), None, Some(node("k", "3"))]));
    assert_eq!(restarted.0.len(), 1);
    assert!(matches!(&restarted.0[0], Op::NodeAdd(n) if n.name == "k"));

    let deleted = Ops::from_node_event(Event::Deleted(Some(node("n", "1"))));
    assert!(matches!(&deleted.0[0], Op::NodeRemove(n) if n == "n"));
    assert!(Ops::from_node_event(Event::Deleted(None)).0.is_empty());
}

#[test]
fn applied_service_replaces_same_name() {
    let mut state = base_state().with_services(vec![service("a", 1, 1), service("b", 2, 2)]);
    let ops = Ops::from_service_event(Event::Applied(Some(service("a", 5, 5))));
    apply(&ops.0, &mut state);
    assert_eq!(state.services.len(), 2);
    let a = (0..2).map(|i| state.services.get(i)).find(|s| s.name == "a").unwrap();
    assert_eq!(a.external_ports.specs[0].host_port, 5);
}

#[test]
fn text_helpers() {
    assert!(contains("abc def", "c d"));
    assert!(contains("abc", ""));
    assert!(!contains("abc", "abcd"));
    assert!(!contains("abc", "ac"));
    assert_eq!(prefix("abcdef", 3), "abc");
    assert_eq!(prefix("ab", 3), "ab");
    assert_eq!(short_id("0123456789abcdef0123"), "0123456789abcdef");
}

#[test]
fn split_on_commas_keeps_empty_pieces() {
    assert_eq!(split_on_commas("eth0,eth1"), vec!["eth0", "eth1"]);
    assert_eq!(split_on_commas(""), vec![""]);
    assert_eq!(split_on_commas(",a,,b"), vec!["", "a", "", "b"]);
    assert_eq!(split_on_commas("a,b,").join(","), "a,b,");
}

#[test]
fn interface_list_marks_external_and_adds_loopback() {
    let opts = Opts {
        interfaces: "eth0,eth1".to_string(),
        external_interface: Some("eth1".to_string()),
        extra_internal_ips: None,
        batch_opts: BatchOpts { batch_commands: true, batch_size: 100 },
        executor: Executor::Ssh(SshHost {
            host: "h".to_string(),
            port: 22,
            key_path: "k".to_string(),
        }),
    };
    let list = opts.interface_list(true);
    assert_eq!(list.len(), 3);
    assert_eq!(list[0], Interface::new("eth0"));
    assert_eq!(list[1], Interface::new("eth1").external());
    assert_eq!(list[2], Interface::new("lo"));
    assert_eq!(opts.interface_list(false).len(), 2);
}

fn sample_rule() -> Rule {
    Rule {
        node: node("n1", "10.0.0.1"),
        service: Service {
            allow_range: Some("10.0.0.0/8".to_string()),
            ..Service {
                name: "web".to_string(),
                namespace: "prod".to_string(),
                external_ports: ExternalPorts {
                    specs: vec![
                        PortSpec::new_tcp(80, 30080),
                        PortSpec { host_port: 53, node_port: 30053, proto: Proto::Udp },
                    ],
                },
                is_internal: true,
                allow_range: None,
            }
        },
        interface: Interface::new("eth0").external(),
        num_nodes: 3,
        node_index: 2,
    }
}

#[test]
fn service_key_lists_ports_flag_and_range() {
    let rule = sample_rule();
    assert_eq!(rule.service_key("HASH"), "HASH80:30080/tcp::53:30053/udptrue10.0.0.0/8");
}

#[test]
fn rule_key_lists_rule_fields() {
    let rule = sample_rule();
    assert_eq!(rule.rule_key("SID"), "SID::10.0.0.1::3::2::eth0::true");
}

#[test]
fn ids_are_truncated_digests() {
    let rule = sample_rule();
    let fqn_hash = sha256::digest("prod/web")[..16].to_string();
    let service_id = sha256::digest(rule.service_key(&fqn_hash))[..16].to_string();
    assert_eq!(rule.service_id(), service_id);
    assert_eq!(rule.service_id().len(), 16);
    let rule_id = sha256::digest(rule.rule_key(&service_id))[..16].to_string();
    assert_eq!(rule.rule_id(), rule_id);
    assert_ne!(rule.rule_id(), rule.rule_key(&service_id));
}

#[test]
fn ids_follow_the_service() {
    let a = sample_rule();
    let b = Rule { service: a.service.clone().internal(), ..a.clone() };
    assert_eq!(a.service_id(), b.service_id());
    let c = Rule { service: Service { is_internal: false, ..a.service.clone() }, ..a.clone() };
    assert_ne!(a.service_id(), c.service_id());
    let d = Rule { node_index: 1, ..a.clone() };
    assert_eq!(a.service_id(), d.service_id());
    assert_ne!(a.rule_id(), d.rule_id());
}

#[test]
fn make_rules_covers_product_without_internal_on_external() {
    let internal = service("int", 2, 2).internal();
    let state = State::default()
        .with_interfaces(vec![Interface::new("eth0"), Interface::new("eth1").external()])
        .with_nodes(vec![node("n2", "10.0.0.2"), node("n1", "10.0.0.1")])
        .with_services(vec![service("pub", 1, 1), internal]);
    let rules = make_rules(&state);
    // 2 nodes x (2 interfaces for the public service + 1 for the internal one)
    assert_eq!(rules.len(), 6);
    assert!(rules.iter().all(|r| r.num_nodes == 2));
    assert!(rules.iter().all(|r| !(r.interface.is_external && r.service.is_internal)));
    assert_eq!(rules[0].node.name, "n1");
    assert_eq!(rules[0].node_index, 0);
    assert_eq!(rules[5].node.name, "n2");
    assert_eq!(rules[5].node_index, 1);
    assert!(make_rules(&State::default()).is_empty());
}

#[test]
fn delete_filter_matching() {
    assert!(DeleteFilter::All.matches("anything"));
    let any = DeleteFilter::ContainingAny(vec!["abc".to_string(), "xyz".to_string()]);
    assert!(any.matches("--xyz--"));
    assert!(!any.matches("--ab--"));
    assert!(!DeleteFilter::ContainingAny(vec![]).matches("abc"));
    let none = DeleteFilter::ContainingNone(vec!["abc".to_string()]);
    assert!(none.matches("xyz"));
    assert!(!none.matches("xabcx"));
    assert!(DeleteFilter::ContainingNone(vec![]).matches("abc"));
}

#[test]
fn plan_kinds() {
    let s0 = base_state();
    assert!(matches!(plan(&s0, &s0.clone()), Plan::Unchanged));
    let s1 = s0.clone().with_services(vec![service("a", 1, 1)]);
    match plan(&s1, &s0) {
        Plan::ServicesOnly { apply, delete } => {
            assert_eq!(apply.len(), 1);
            assert!(matches!(delete, DeleteFilter::ContainingAny(ids) if ids.is_empty()));
        },
        _ => panic!("expected a services-only plan"),
    }
    let s2 = s1.clone().with_nodes(vec![node("n1", "10.0.0.1"), node("n2", "10.0.0.2")]);
    match plan(&s2, &s1) {
        Plan::Full { apply, delete } => {
            assert_eq!(apply.len(), 2);
            assert!(matches!(delete, DeleteFilter::ContainingNone(ids) if ids.len() == 2));
        },
        _ => panic!("expected a full plan"),
    }
}

#[test]
fn reconcile_same_state_leaves_backend_alone() {
    let mut operator = Operator::new(RecordingBackend::default());
    let s = base_state().with_services(vec![service("a", 1, 1)]);
    assert!(operator.reconcile(&s, &s.clone()).is_ok());
    assert!(operator.backend.calls.is_empty());
}

#[test]
fn reconcile_calls_in_order() {
    let mut operator = Operator::new(RecordingBackend::default());
    let s0 = base_state();
    let s1 = s0.clone().with_services(vec![service("a", 1, 1)]);
    operator.reconcile(&s1, &s0).unwrap();
    assert_eq!(operator.backend.calls, vec!["read", "apply 1", "delete"]);
    assert_eq!(operator.backend.rules.len(), 1);
}

#[test]
fn reconcile_syncs_rules_through_changes() {
    // after each reconciliation the backend holds the rules of the current state (as a set:
    // a full cycle adds every rule again before deleting the stale ones)
    let mut operator = Operator::new(RecordingBackend::default());
    let states = vec![
        State::default(),
        base_state(),
        base_state().with_services(vec![service("a", 1, 1), service("b", 2, 2)]),
        base_state()
            .with_services(vec![service("a", 1, 1), service("b", 3, 3)])
            .with_nodes(vec![node("n1", "10.0.0.1"), node("n2", "10.0.0.2")]),
        base_state()
            .with_services(vec![service("b", 3, 3)])
            .with_nodes(vec![node("n1", "10.0.0.1"), node("n2", "10.0.0.2")])
            .with_interfaces(vec![Interface::new("eth0"), Interface::new("eth1")]),
        base_state().with_services(vec![service("b", 3, 3).internal()]),
    ];
    for w in states.windows(2) {
        operator.reconcile(&w[1], &w[0]).unwrap();
        let mut have: Vec<String> = operator.backend.rules.iter().map(|r| r.rule_id()).collect();
        let mut want: Vec<String> = make_rules(&w[1]).iter().map(|r| r.rule_id()).collect();
        have.sort();
        have.dedup();
        want.sort();
        assert_eq!(have, want);
    }
}

#[test]
fn apply_failure_is_wrapped() {
    let mut operator =
        Operator::new(RecordingBackend { fail_apply: true, ..RecordingBackend::default() });
    let s0 = base_state();
    let s1 = s0.clone().with_services(vec![service("a", 1, 1)]);
    match operator.reconcile(&s1, &s0) {
        Err(Error::OperatorError(inner)) => {
            assert!(matches!(*inner, Error::Backend(ref m) if m == "apply failed"))
        },
        other => panic!("unexpected {:?}", other),
    }
    assert_eq!(operator.backend.calls, vec!["read", "apply 1"]);
}

#[test]
fn services_only_delete_failure_passes_through() {
    let mut operator =
        Operator::new(RecordingBackend { fail_delete: true, ..RecordingBackend::default() });
    let s0 = base_state();
    let s1 = s0.clone().with_services(vec![service("a", 1, 1)]);
    assert!(matches!(operator.reconcile(&s1, &s0), Err(Error::Backend(_))));
}

#[test]
fn full_delete_failure_is_wrapped() {
    let mut operator =
        Operator::new(RecordingBackend { fail_delete: true, ..RecordingBackend::default() });
    let s0 = base_state();
    let s1 = s0.clone().with_nodes(vec![]);
    assert!(matches!(operator.reconcile(&s1, &s0), Err(Error::OperatorError(_))));
}

#[test]
fn cleanup_deletes_everything() {
    let mut operator = Operator::new(RecordingBackend::default());
    let s0 = base_state();
    let s1 = s0.clone().with_services(vec![service("a", 1, 1), service("b", 2, 2)]);
    operator.reconcile(&s1, &s0).unwrap();
    assert_eq!(operator.backend.rules.len(), 2);
    operator.cleanup().unwrap();
    assert!(operator.backend.rules.is_empty());
    let mut failing =
        Operator::new(RecordingBackend { fail_delete: true, ..RecordingBackend::default() });
    assert!(matches!(failing.cleanup(), Err(Error::OperatorError(_))));
}

#[test]
fn same_elements_give_same_set() {
    let a = OrderedSet::from_vec(vec![node("b", "2"), node("a", "1"), node("c", "3")]);
    let b = OrderedSet::from_vec(vec![node("c", "3"), node("b", "2"), node("a", "1"), node("b", "2")]);
    assert!(a.equals(&b));
    assert_eq!(names(&a), names(&b));
}

#[test]
fn order_is_antisymmetric() {
    let xs = vec![node("a", "1"), node("a", "2"), node("b", "1")];
    for x in &xs {
        for y in &xs {
            let forward = x.compare(y);
            let backward = y.compare(x);
            let flipped = match backward {
                Compared::Less => Compared::Greater,
                Compared::Equal => Compared::Equal,
                Compared::Greater => Compared::Less,
            };
            assert_eq!(forward, flipped);
            assert_eq!(forward == Compared::Equal, x == y);
        }
    }
}

#[test]
fn deleted_service_leaves_none_of_its_name() {
    let mut state = base_state().with_services(vec![
        service("a", 1, 1),
        service("a", 2, 2),
        service("b", 3, 3),
    ]);
    let ops = Ops::from_service_event(Event::Deleted(Some(service("a", 9, 9))));
    apply(&ops.0, &mut state);
    assert_eq!(service_names(&state.services), vec!["b"]);
    assert_eq!(names(&state.nodes), vec!["n1"]);
}

#[test]
fn applied_node_replaces_or_drops() {
    let mut state = base_state();
    let moved = node("n1", "10.9.9.9");
    apply(&Ops::from_node_event(Event::Applied(Some(moved))).0, &mut state);
    assert_eq!(state.nodes.len(), 1);
    assert_eq!(state.nodes.get(0).addr, "10.9.9.9");
    let inactive = Node { is_active: false, ..node("n1", "10.9.9.9") };
    apply(&Ops::from_node_event(Event::Applied(Some(inactive))).0, &mut state);
    assert!(state.nodes.is_empty());
    apply(&Ops::from_node_event(Event::Applied(Some(node("n2", "2")))).0, &mut state);
    apply(&Ops::from_node_event(Event::Deleted(Some(node("n2", "other")))).0, &mut state);
    assert!(state.nodes.is_empty());
}

#[test]
fn interface_identity() {
    let iface = Interface::new("eth3");
    assert_eq!(iface.id(), "eth3");
    assert!(iface.is_active());
}

#[test]
fn backend_answers_are_wrapped() {
    assert!(wrap_backend_result(Ok(())).is_ok());
    match wrap_backend_result(Err(Error::Backend("x".to_string()))) {
        Err(Error::OperatorError(inner)) => assert!(matches!(*inner, Error::Backend(ref m) if m == "x")),
        other => panic!("unexpected {:?}", other),
    }
}

#[test]
fn ops_iterate_in_order() {
    let ops = Ops(vec![Op::NodeRemove("a".to_string()), Op::NodeRemove("b".to_string())]);
    let seen: Vec<String> = ops
        .into_iter()
        .map(|op| match op {
            Op::NodeRemove(n) => n,
            _ => String::new(),
        })
        .collect();
    assert_eq!(seen, vec!["a", "b"]);
}

#[test]
fn interfaces_keep_their_order_and_repeats() {
    let state = base_state()
        .with_interfaces(vec![Interface::new("eth1"), Interface::new("eth0"), Interface::new("eth1")])
        .with_services(vec![service("a", 1, 1)]);
    assert_eq!(state.interfaces.len(), 3);
    assert_eq!(state.interfaces[0].name, "eth1");
    assert_eq!(state.interfaces[1].name, "eth0");
    let rules = make_rules(&state);
    assert_eq!(rules.len(), 3);
    let order: Vec<&str> = rules.iter().map(|r| r.interface.name.as_str()).collect();
    assert_eq!(order, vec!["eth1", "eth0", "eth1"]);
}

#[test]
fn ids_are_sixteen_lowercase_hex_digits() {
    let rule = sample_rule();
    for id in [rule.rule_id(), rule.service_id()] {
        assert_eq!(id.len(), 16);
        assert!(id.chars().all(|c| c.is_ascii_digit() || ('a' <= c && c <= 'f')));
    }
}

#[test]
fn full_cycle_apply_failure_skips_deletion() {
    let mut operator =
        Operator::new(RecordingBackend { fail_apply: true, ..RecordingBackend::default() });
    let s0 = base_state().with_services(vec![service("a", 1, 1)]);
    let s1 = s0.clone().with_nodes(vec![node("n1", "10.0.0.1"), node("n2", "10.0.0.2")]);
    assert!(matches!(operator.reconcile(&s1, &s0), Err(Error::OperatorError(_))));
    assert_eq!(operator.backend.calls, vec!["read", "apply 2"]);
}

#[test]
fn diff_is_empty_when_only_interfaces_change() {
    let prev = base_state().with_services(vec![service("a", 1, 1)]);
    let cur = prev.clone().with_interfaces(vec![Interface::new("eth0").external()]);
    let (added, removed) = cur.diff(&prev);
    assert!(added.is_empty() && removed.is_empty());
    assert_eq!(added.interfaces, vec![Interface::new("eth0").external()]);
    assert_eq!(removed.interfaces, vec![Interface::new("eth0")]);
    // the interface change is still reconciled, as a full cycle
    assert!(matches!(plan(&cur, &prev), Plan::Full { .. }));
    // a reordered interface list is no change
    let two = base_state().with_interfaces(vec![Interface::new("eth0"), Interface::new("eth1")]);
    let swapped = base_state().with_interfaces(vec![Interface::new("eth1"), Interface::new("eth0")]);
    assert!(matches!(plan(&swapped, &two), Plan::Unchanged));
}

#[test]
fn memory_backend_adds_and_deletes_by_text() {
    let mut backend = MemoryBackend::new();
    let rule = sample_rule();
    backend.apply_rules(vec![rule.clone(), rule.clone()]).unwrap();
    assert_eq!(backend.rules.len(), 2);
    backend
        .delete_rules(&DeleteFilter::ContainingAny(vec![rule.service_id()]))
        .unwrap();
    assert!(backend.rules.is_empty());
    backend.apply_rules(vec![rule.clone()]).unwrap();
    backend
        .delete_rules(&DeleteFilter::ContainingNone(vec![rule.rule_id()]))
        .unwrap();
    assert_eq!(backend.rules.len(), 1);
    backend.read_state();
    assert_eq!(backend.rules.len(), 1);
    backend.delete_rules(&DeleteFilter::All).unwrap();
    assert!(backend.rules.is_empty());
}

#[test]
fn memory_backend_follows_the_states() {
    let mut operator = Operator::new(MemoryBackend::new());
    let states = vec![
        State::default(),
        base_state().with_services(vec![service("a", 1, 1)]),
        base_state().with_services(vec![service("a", 1, 1), service("b", 2, 2)]),
        base_state()
            .with_services(vec![service("b", 2, 2)])
            .with_interfaces(vec![Interface::new("eth0").external(), Interface::new("eth1")]),
        base_state().with_nodes(vec![]),
    ];
    for w in states.windows(2) {
        operator.reconcile(&w[1], &w[0]).unwrap();
        let mut have: Vec<String> = operator.backend.rules.iter().map(|r| r.rule_id()).collect();
        let mut want: Vec<String> = make_rules(&w[1]).iter().map(|r| r.rule_id()).collect();
        have.sort();
        have.dedup();
        want.sort();
        want.dedup();
        assert_eq!(have, want);
    }
    operator.cleanup().unwrap();
    assert!(operator.backend.rules.is_empty());
}
