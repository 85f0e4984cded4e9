use vstd::prelude::*;
use vstd::string::StringExecFns;

use crate::order::{
    compare_text, lemma_lex_order_laws, lemma_lex_step, lemma_text_order_laws, lex, order_laws,
    opt_text_order, text_order, u16_order, bool_order, Compared,
};
use crate::ordered::Ordered;

verus! {

/// Transport protocol of a forwarded port.
#[derive(Clone, Copy, Debug, PartialEq, Eq, Structural)]
pub enum Proto {
    Tcp,
    Udp,
}

/// One forwarded port: traffic to `host_port` on the host goes to `node_port` on the nodes.
#[derive(Clone, Copy, Debug, PartialEq, Eq, Structural)]
pub struct PortSpec {
    pub host_port: u16,
    pub node_port: u16,
    pub proto: Proto,
}

/// The external ports that a service asks for.
#[derive(Clone, Debug, PartialEq, Eq)]
pub struct ExternalPorts {
    pub specs: Vec<PortSpec>,
}

/// A Kubernetes service that asks for external ports.
#[derive(Clone, Debug, PartialEq, Eq)]
pub struct Service {
    pub name: String,
    pub namespace: String,
    pub external_ports: ExternalPorts,
    pub is_internal: bool,
    pub allow_range: Option<String>,
}

/// A cluster node that traffic is forwarded to.
#[derive(Clone, Debug, PartialEq, Eq)]
pub struct Node {
    pub name: String,
    pub addr: String,
    pub is_active: bool,
}

/// A host network interface that packets are forwarded from.
#[derive(Clone, Debug, PartialEq, Eq)]
pub struct Interface {
    pub name: String,
    pub is_external: bool,
}

pub struct ServiceView {
    pub name: Seq<char>,
    pub namespace: Seq<char>,
    pub ports: Seq<PortSpec>,
    pub is_internal: bool,
    pub allow_range: Option<Seq<char>>,
}

pub struct NodeView {
    pub name: Seq<char>,
    pub addr: Seq<char>,
    pub is_active: bool,
}

pub struct InterfaceView {
    pub name: Seq<char>,
    pub is_external: bool,
}

impl View for ExternalPorts {
    type V = Seq<PortSpec>;

    open spec fn view(&self) -> Seq<PortSpec> {
        self.specs@
    }
}

impl View for Service {
    type V = ServiceView;

    open spec fn view(&self) -> ServiceView {
        ServiceView {
            name: self.name@,
            namespace: self.namespace@,
            ports: self.external_ports@,
            is_internal: self.is_internal,
            allow_range: self.allow_range.deep_view(),
        }
    }
}

impl View for Node {
    type V = NodeView;

    open spec fn view(&self) -> NodeView {
        NodeView { name: self.name@, addr: self.addr@, is_active: self.is_active }
    }
}

impl View for Interface {
    type V = InterfaceView;

    open spec fn view(&self) -> InterfaceView {
        InterfaceView { name: self.name@, is_external: self.is_external }
    }
}

/// Order of protocols: TCP before UDP.
pub open spec fn proto_order(a: Proto, b: Proto) -> Compared {
    if a == b {
        Compared::Equal
    } else if a == Proto::Tcp {
        Compared::Less
    } else {
        Compared::Greater
    }
}

/// Order of port specs: by host port, then node port, then protocol.
pub open spec fn port_order(a: PortSpec, b: PortSpec) -> Compared {
    u16_order(a.host_port, b.host_port).and_next(u16_order(a.node_port, b.node_port)).and_next(
        proto_order(a.proto, b.proto),
    )
}

/// The port order as a function value.
pub open spec fn by_port() -> spec_fn(PortSpec, PortSpec) -> Compared {
    |a: PortSpec, b: PortSpec| port_order(a, b)
}

/// Order of port lists: lexicographic.
pub open spec fn ports_order(a: Seq<PortSpec>, b: Seq<PortSpec>) -> Compared {
    lex(a, b, by_port())
}

/// Order of services: name, namespace, ports, internal flag, allowed range.
pub open spec fn service_order(a: ServiceView, b: ServiceView) -> Compared {
    text_order(a.name, b.name).and_next(text_order(a.namespace, b.namespace)).and_next(
        ports_order(a.ports, b.ports),
    ).and_next(bool_order(a.is_internal, b.is_internal)).and_next(
        opt_text_order(a.allow_range, b.allow_range),
    )
}

/// Order of nodes: name, address, active flag.
pub open spec fn node_order(a: NodeView, b: NodeView) -> Compared {
    text_order(a.name, b.name).and_next(text_order(a.addr, b.addr)).and_next(
        bool_order(a.is_active, b.is_active),
    )
}

proof fn lemma_port_order_laws()
    ensures
        order_laws(by_port()),
{
}

proof fn lemma_ports_order_laws()
    ensures
        order_laws(|a: Seq<PortSpec>, b: Seq<PortSpec>| ports_order(a, b)),
{
    lemma_port_order_laws();
    lemma_lex_order_laws(by_port());
    let l = |a: Seq<PortSpec>, b: Seq<PortSpec>| lex(a, b, by_port());
    let t = |a: Seq<PortSpec>, b: Seq<PortSpec>| ports_order(a, b);
    assert forall|a: Seq<PortSpec>, b: Seq<PortSpec>| #[trigger] t(a, b) == l(a, b) by {}
}

/// Laws of the text order, instantiated.
proof fn lemma_text(a: Seq<char>, b: Seq<char>, c: Seq<char>)
    ensures
        (text_order(a, b) == Compared::Equal) == (a == b),
        text_order(a, b) == text_order(b, a).flip(),
        text_order(a, b) == Compared::Less && text_order(b, c) == Compared::Less ==> text_order(
            a,
            c,
        ) == Compared::Less,
{
    lemma_text_order_laws();
    let t = |a: Seq<char>, b: Seq<char>| text_order(a, b);
    assert(t(a, b) == text_order(a, b));
    assert(t(b, a) == text_order(b, a));
    assert(t(b, c) == text_order(b, c));
    assert(t(a, c) == text_order(a, c));
}

proof fn lemma_ports(a: Seq<PortSpec>, b: Seq<PortSpec>, c: Seq<PortSpec>)
    ensures
        (ports_order(a, b) == Compared::Equal) == (a == b),
        ports_order(a, b) == ports_order(b, a).flip(),
        ports_order(a, b) == Compared::Less && ports_order(b, c) == Compared::Less ==> ports_order(
            a,
            c,
        ) == Compared::Less,
{
    lemma_ports_order_laws();
    let t = |a: Seq<PortSpec>, b: Seq<PortSpec>| ports_order(a, b);
    assert(t(a, b) == ports_order(a, b));
    assert(t(b, a) == ports_order(b, a));
    assert(t(b, c) == ports_order(b, c));
    assert(t(a, c) == ports_order(a, c));
}

proof fn lemma_opt_text(a: Option<Seq<char>>, b: Option<Seq<char>>, c: Option<Seq<char>>)
    ensures
        (opt_text_order(a, b) == Compared::Equal) == (a == b),
        opt_text_order(a, b) == opt_text_order(b, a).flip(),
        opt_text_order(a, b) == Compared::Less && opt_text_order(b, c) == Compared::Less
            ==> opt_text_order(a, c) == Compared::Less,
{
    if a is Some && b is Some && c is Some {
        lemma_text(a->0, b->0, c->0);
    } else if a is Some && b is Some {
        lemma_text(a->0, b->0, b->0);
    }
}

impl Ordered for Service {
    open spec fn order(a: ServiceView, b: ServiceView) -> Compared {
        service_order(a, b)
    }

    proof fn lemma_order_equal(a: ServiceView, b: ServiceView) {
        lemma_text(a.name, b.name, b.name);
        lemma_text(a.namespace, b.namespace, b.namespace);
        lemma_ports(a.ports, b.ports, b.ports);
        lemma_opt_text(a.allow_range, b.allow_range, b.allow_range);
    }

    proof fn lemma_order_flip(a: ServiceView, b: ServiceView) {
        lemma_text(a.name, b.name, b.name);
        lemma_text(a.namespace, b.namespace, b.namespace);
        lemma_ports(a.ports, b.ports, b.ports);
        lemma_opt_text(a.allow_range, b.allow_range, b.allow_range);
    }

    proof fn lemma_order_trans(a: ServiceView, b: ServiceView, c: ServiceView) {
        lemma_text(a.name, b.name, c.name);
        lemma_text(a.namespace, b.namespace, c.namespace);
        lemma_ports(a.ports, b.ports, c.ports);
        lemma_opt_text(a.allow_range, b.allow_range, c.allow_range);
        lemma_text(a.name, c.name, c.name);
        lemma_text(a.namespace, c.namespace, c.namespace);
        lemma_ports(a.ports, c.ports, c.ports);
        lemma_opt_text(a.allow_range, c.allow_range, c.allow_range);
        lemma_text(b.name, c.name, c.name);
        lemma_text(b.namespace, c.namespace, c.namespace);
        lemma_ports(b.ports, c.ports, c.ports);
        lemma_opt_text(b.allow_range, c.allow_range, c.allow_range);
    }

    fn compare(&self, other: &Self) -> (r: Compared) {
        let a = compare_text(self.name.as_str(), other.name.as_str());
        if a != Compared::Equal {
            return a;
        }
        let b = compare_text(self.namespace.as_str(), other.namespace.as_str());
        if b != Compared::Equal {
            return b;
        }
        let c = self.external_ports.compare(&other.external_ports);
        if c != Compared::Equal {
            return c;
        }
        if self.is_internal != other.is_internal {
            return if self.is_internal {
                Compared::Greater
            } else {
                Compared::Less
            };
        }
        match (&self.allow_range, &other.allow_range) {
            (None, None) => Compared::Equal,
            (None, Some(_)) => Compared::Less,
            (Some(_), None) => Compared::Greater,
            (Some(x), Some(y)) => compare_text(x.as_str(), y.as_str()),
        }
    }

    fn duplicate(&self) -> (r: Self) {
        Service {
            name: self.name.clone(),
            namespace: self.namespace.clone(),
            external_ports: self.external_ports.duplicate(),
            is_internal: self.is_internal,
            allow_range: match &self.allow_range {
                Some(x) => Some(x.clone()),
                None => None,
            },
        }
    }
}

impl Ordered for Node {
    open spec fn order(a: NodeView, b: NodeView) -> Compared {
        node_order(a, b)
    }

    proof fn lemma_order_equal(a: NodeView, b: NodeView) {
        lemma_text(a.name, b.name, b.name);
        lemma_text(a.addr, b.addr, b.addr);
    }

    proof fn lemma_order_flip(a: NodeView, b: NodeView) {
        lemma_text(a.name, b.name, b.name);
        lemma_text(a.addr, b.addr, b.addr);
    }

    proof fn lemma_order_trans(a: NodeView, b: NodeView, c: NodeView) {
        lemma_text(a.name, b.name, c.name);
        lemma_text(a.addr, b.addr, c.addr);
        lemma_text(a.name, c.name, c.name);
        lemma_text(a.addr, c.addr, c.addr);
        lemma_text(b.name, c.name, c.name);
        lemma_text(b.addr, c.addr, c.addr);
    }

    fn compare(&self, other: &Self) -> (r: Compared) {
        let a = compare_text(self.name.as_str(), other.name.as_str());
        if a != Compared::Equal {
            return a;
        }
        let b = compare_text(self.addr.as_str(), other.addr.as_str());
        if b != Compared::Equal {
            return b;
        }
        if self.is_active == other.is_active {
            Compared::Equal
        } else if self.is_active {
            Compared::Greater
        } else {
            Compared::Less
        }
    }

    fn duplicate(&self) -> (r: Self) {
        Node { name: self.name.clone(), addr: self.addr.clone(), is_active: self.is_active }
    }
}

/// Order of interfaces: name, then the external flag.
pub open spec fn interface_order(a: InterfaceView, b: InterfaceView) -> Compared {
    text_order(a.name, b.name).and_next(bool_order(a.is_external, b.is_external))
}

impl Ordered for Interface {
    open spec fn order(a: InterfaceView, b: InterfaceView) -> Compared {
        interface_order(a, b)
    }

    proof fn lemma_order_equal(a: InterfaceView, b: InterfaceView) {
        lemma_text(a.name, b.name, b.name);
    }

    proof fn lemma_order_flip(a: InterfaceView, b: InterfaceView) {
        lemma_text(a.name, b.name, b.name);
    }

    proof fn lemma_order_trans(a: InterfaceView, b: InterfaceView, c: InterfaceView) {
        lemma_text(a.name, b.name, c.name);
        lemma_text(a.name, c.name, c.name);
        lemma_text(b.name, c.name, c.name);
    }

    fn compare(&self, other: &Self) -> (r: Compared) {
        let a = compare_text(self.name.as_str(), other.name.as_str());
        if a != Compared::Equal {
            return a;
        }
        if self.is_external == other.is_external {
            Compared::Equal
        } else if self.is_external {
            Compared::Greater
        } else {
            Compared::Less
        }
    }

    fn duplicate(&self) -> (r: Self) {
        Interface { name: self.name.clone(), is_external: self.is_external }
    }
}

impl PortSpec {
    /// A TCP port spec.
    pub fn new_tcp(host_port: u16, node_port: u16) -> (r: PortSpec)
        ensures
            r == (PortSpec { host_port, node_port, proto: Proto::Tcp }),
    {
        PortSpec { host_port, node_port, proto: Proto::Tcp }
    }

    /// Compares two port specs.
    pub fn compare(&self, other: &PortSpec) -> (r: Compared)
        ensures
            r == port_order(*self, *other),
    {
        if self.host_port != other.host_port {
            return if self.host_port < other.host_port {
                Compared::Less
            } else {
                Compared::Greater
            };
        }
        if self.node_port != other.node_port {
            return if self.node_port < other.node_port {
                Compared::Less
            } else {
                Compared::Greater
            };
        }
        if self.proto == other.proto {
            Compared::Equal
        } else if self.proto == Proto::Tcp {
            Compared::Less
        } else {
            Compared::Greater
        }
    }
}

impl ExternalPorts {
    /// Compares two port lists lexicographically.
    pub fn compare(&self, other: &ExternalPorts) -> (r: Compared)
        ensures
            r == ports_order(self@, other@),
    {
        let x = &self.specs;
        let y = &other.specs;
        let ghost c = by_port();
        proof {
            lemma_port_order_laws();
            assert(x@.skip(0) =~= x@);
            assert(y@.skip(0) =~= y@);
        }
        let mut i: usize = 0;
        while i < x.len() && i < y.len()
            invariant
                c == by_port(),
                x@ == self@,
                y@ == other@,
                order_laws(c),
                i <= x.len(),
                i <= y.len(),
                ports_order(x@, y@) == lex(x@.skip(i as int), y@.skip(i as int), c),
            decreases x.len() - i,
        {
            let step = x[i].compare(&y[i]);
            proof {
                assert(x@.skip(i as int)[0] == x@[i as int]);
                assert(y@.skip(i as int)[0] == y@[i as int]);
                assert(c(x@[i as int], y@[i as int]) == step);
            }
            if step != Compared::Equal {
                return step;
            }
            proof {
                lemma_lex_step(x@, y@, c, i as int);
            }
            i = i + 1;
        }
        if i < x.len() {
            Compared::Greater
        } else if i < y.len() {
            Compared::Less
        } else {
            Compared::Equal
        }
    }

    /// A copy with the same ports.
    pub fn duplicate(&self) -> (r: ExternalPorts)
        ensures
            r@ == self@,
    {
        let mut specs: Vec<PortSpec> = Vec::new();
        for i in 0..self.specs.len()
            invariant
                specs@ == self.specs@.take(i as int),
        {
            specs.push(self.specs[i]);
        }
        assert(self.specs@.take(self.specs@.len() as int) =~= self.specs@);
        ExternalPorts { specs }
    }
}

} // verus!

verus! {

/// The fully qualified name of a service: its namespace, a slash, its name.
pub open spec fn fqn_of(s: ServiceView) -> Seq<char> {
    s.namespace + seq!['/'] + s.name
}

impl Service {
    /// The fully qualified name, `namespace/name`.
    pub fn fqn(&self) -> (r: String)
        ensures
            r@ == fqn_of(self@),
    {
        let mut r = self.namespace.clone();
        r.append("/");
        r.append(self.name.as_str());
        proof {
            reveal_strlit("/");
        }
        r
    }

    /// Whether the service asks for at least one external port.
    pub fn has_external_port(&self) -> (r: bool)
        ensures
            r == (self@.ports.len() > 0),
    {
        self.external_ports.specs.len() > 0
    }

    /// The same service, reachable only through internal interfaces.
    pub fn internal(self) -> (r: Service)
        ensures
            r@ == (ServiceView { is_internal: true, ..self@ }),
    {
        Service { is_internal: true, ..self }
    }
}

impl Interface {
    /// An internal interface with the given name.
    pub fn new(name: &str) -> (r: Interface)
        ensures
            r@ == (InterfaceView { name: name@, is_external: false }),
    {
        Interface { name: name.to_owned(), is_external: false }
    }

    /// The id of the interface: its name.
    pub fn id(&self) -> (r: String)
        ensures
            r@ == self@.name,
    {
        self.name.clone()
    }

    /// An interface is always active.
    pub fn is_active(&self) -> (r: bool)
        ensures
            r,
    {
        true
    }

    /// The same interface, marked external.
    pub fn external(self) -> (r: Interface)
        ensures
            r@ == (InterfaceView { is_external: true, ..self@ }),
    {
        Interface { is_external: true, ..self }
    }
}

} // verus!
