use epok::operator::{Backend, DeleteFilter, Error, Operator, Rule};
use epok::res::{ExternalPorts, Interface, Node, PortSpec, Proto, Service};
use epok::state::State;

#[derive(Default)]
struct TestBackend {
    rules: Vec<Rule>,
}

impl Backend for TestBackend {
    fn read_state(&mut self) {
        // noop: we keep state in memory
    }

    fn apply_rules(&mut self, rules: Vec<Rule>) -> Result<(), Error> {
        for rule in rules {
            self.rules.push(rule);
        }
        Ok(())
    }

    fn delete_rules(&mut self, filter: &DeleteFilter) -> Result<(), Error> {
        self.rules
            .retain(|r| !filter.matches(format!("{} {}", r.rule_id(), r.service_id()).as_str()));
        Ok(())
    }
}

fn get_rules(operator: &Operator<TestBackend>) -> Vec<Rule> {
    operator.backend.rules.clone()
}

fn empty_state() -> State {
    State::default()
        .with_interfaces(vec![Interface::new("eth0")])
        .with_nodes(vec![Node {
            name: "foo".to_string(),
            addr: "bar".to_string(),
            is_active: true,
        }])
}

fn single_port_spec(host_port: u16, node_port: u16) -> ExternalPorts {
    ExternalPorts { specs: vec![PortSpec::new_tcp(host_port, node_port)] }
}

fn single_port_service(host_port: u16, node_port: u16) -> Service {
    service_with_ep(single_port_spec(host_port, node_port))
}

fn service_with_ep(external_ports: ExternalPorts) -> Service {
    Service {
        name: "foo".to_string(),
        namespace: "bar".to_string(),
        external_ports,
        is_internal: false,
        allow_range: None,
    }
}

#[test]
fn test_trivial() {
    let backend = TestBackend::default();
    let mut operator = Operator::new(backend);

    let res = operator.reconcile(&State::default(), &State::default());
    assert!(res.is_ok());

    let rules = get_rules(&operator);
    assert!(rules.is_empty());
}

#[test]
fn it_replaces_svc_on_port_change() {
    let backend = TestBackend::default();
    let mut operator = Operator::new(backend);

    let state0 = empty_state();

    let state1 = state0.clone().with_services(vec![single_port_service(123, 456)]);
    operator.reconcile(&state1, &state0).unwrap();

    let rules = get_rules(&operator);
    assert_eq!(rules.len(), 1);
    assert_eq!(rules[0].service.external_ports, single_port_spec(123, 456));

    let state2 = state1.clone().with_services(vec![single_port_service(1234, 456)]);
    operator.reconcile(&state2, &state1).unwrap();

    let rules = get_rules(&operator);
    assert_eq!(rules.len(), 1);
    assert_eq!(rules[0].service.external_ports, single_port_spec(1234, 456));
}

#[test]
fn it_replaces_svc_on_interal_change() {
    let backend = TestBackend::default();
    let mut operator = Operator::new(backend);

    let state0 = empty_state().with_interfaces(vec![Interface::new("eth0").external()]);

    let svc = single_port_service(123, 456);
    let state1 = state0.clone().with_services(vec![svc.clone()]);
    operator.reconcile(&state1, &state0).unwrap();

    // A normal service should get a rule even for external interfaces
    let rules = get_rules(&operator);
    assert_eq!(rules.len(), 1);
    assert_eq!(rules[0].service.external_ports, single_port_spec(123, 456));

    // However once the service goes "internal" the rule should be gone
    let state2 = state1.clone().with_services(vec![svc.internal()]);
    operator.reconcile(&state2, &state1).unwrap();

    let rules = get_rules(&operator);
    assert_eq!(rules.len(), 0);

    // When we make the interface internal again, the rule should pop up
    let state3 = state2.clone().with_interfaces(vec![Interface::new("eth0")]);
    operator.reconcile(&state3, &state2).unwrap();
    let rules = get_rules(&operator);
    assert_eq!(rules.len(), 1);
    assert_eq!(rules[0].service.external_ports, single_port_spec(123, 456));
}

#[test]
fn it_deletes_all_rules_when_no_nodes_left() {
    let backend = TestBackend::default();
    let mut operator = Operator::new(backend);

    let state0 = empty_state();

    let state1 = state0.clone().with_services(vec![single_port_service(123, 456)]);
    operator.reconcile(&state1, &state0).unwrap();

    let state2 = state1.clone().with_nodes(Vec::<Node>::new());
    operator.reconcile(&state2, &state1).unwrap();

    let rules = get_rules(&operator);
    assert_eq!(rules.len(), 0);
}

#[test]
fn it_handles_service_remove_node_add_correctly() {
    let backend = TestBackend::default();
    let mut operator = Operator::new(backend);

    let state0 = empty_state();
    let state1 = state0
        .clone()
        .with_services(vec![single_port_service(123, 456), single_port_service(789, 654)]);
    operator.reconcile(&state1, &state0).unwrap();

    // add a node, remove a service
    let state2 = state1
        .clone()
        .with_nodes(vec![
            Node { name: "foo".to_string(), addr: "bar".to_string(), is_active: true },
            Node { name: "foo_two".to_string(), addr: "bar_two".to_string(), is_active: true },
        ])
        .with_services(vec![single_port_service(789, 654)]);
    operator.reconcile(&state2, &state1).unwrap();

    let rules = get_rules(&operator);
    assert_eq!(rules.len(), 2);
    assert!(rules.iter().all(|x| x.service.external_ports == single_port_spec(789, 654)));
}

#[test]
fn it_removes_services() {
    let backend = TestBackend::default();
    let mut operator = Operator::new(backend);

    let state0 = empty_state().with_services(vec![single_port_service(123, 456)]);
    operator.reconcile(&state0, &empty_state()).unwrap();

    let rules = get_rules(&operator);
    assert_eq!(rules.len(), 1);
    assert_eq!(rules[0].service.external_ports, single_port_spec(123, 456));

    let state1 = state0.clone().with_nodes(Vec::<Node>::new());
    operator.reconcile(&state1, &state0).unwrap();

    let rules = get_rules(&operator);
    assert_eq!(rules.len(), 0);
}

#[test]
fn it_supports_multiple_ports() {
    let backend = TestBackend::default();
    let mut operator = Operator::new(backend);

    let state0 = empty_state().with_services(vec![single_port_service(123, 456)]);
    operator.reconcile(&state0, &empty_state()).unwrap();

    let state1 = state0.clone().with_services(vec![service_with_ep(ExternalPorts {
        specs: vec![PortSpec::new_tcp(123, 456), PortSpec::new_tcp(321, 654)],
    })]);
    operator.reconcile(&state1, &state0).unwrap();

    let rules = get_rules(&operator);
    assert_eq!(
        rules[0].service.external_ports,
        ExternalPorts { specs: vec![PortSpec::new_tcp(123, 456), PortSpec::new_tcp(321, 654)] }
    );
}

#[test]
fn it_supports_udp() {
    let backend = TestBackend::default();
    let mut operator = Operator::new(backend);

    let state0 = empty_state().with_services(vec![single_port_service(123, 456)]);
    operator.reconcile(&state0, &empty_state()).unwrap();

    let rules = get_rules(&operator);
    assert_eq!(rules.len(), 1);
    assert_eq!(rules[0].service.external_ports, single_port_spec(123, 456));

    let state1 = state0.clone().with_services(vec![service_with_ep(ExternalPorts {
        specs: vec![PortSpec { host_port: 123, node_port: 456, proto: Proto::Udp }],
    })]);

    operator.reconcile(&state1, &state0).unwrap();

    let rules = get_rules(&operator);
    assert_eq!(rules.len(), 1);

    assert_eq!(
        rules[0].service.external_ports,
        ExternalPorts {
            specs: vec![PortSpec { host_port: 123, node_port: 456, proto: Proto::Udp }],
        }
    );
}
