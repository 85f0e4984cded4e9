use vstd::prelude::*;

use crate::ordered::Ordered;
use crate::res::{fqn_of, Interface, InterfaceView, Node, NodeView, Service, ServiceView};
use crate::set::{views, OrderedSet};

verus! {

/// What the operator knows of the cluster: the interfaces to forward from (a list, kept in the
/// order given and with any repeats), the services that ask for external ports, and the nodes
/// to forward to (both sets).
#[derive(Clone, Debug)]
pub struct State {
    pub interfaces: Vec<Interface>,
    pub services: OrderedSet<Service>,
    pub nodes: OrderedSet<Node>,
}

/// A state seen as values: the interface list as given, and the services and nodes in order.
pub struct StateView {
    pub interfaces: Seq<InterfaceView>,
    pub services: Seq<ServiceView>,
    pub nodes: Seq<NodeView>,
}

impl View for State {
    type V = StateView;

    open spec fn view(&self) -> StateView {
        StateView {
            interfaces: views(self.interfaces@),
            services: self.services@,
            nodes: self.nodes@,
        }
    }
}

/// The services of `s` whose fully qualified name is not `fqn`.
pub open spec fn without_fqn(s: Seq<ServiceView>, fqn: Seq<char>) -> Seq<ServiceView> {
    s.filter(|v: ServiceView| fqn_of(v) != fqn)
}

/// The nodes of `s` whose name is not `name`.
pub open spec fn without_name(s: Seq<NodeView>, name: Seq<char>) -> Seq<NodeView> {
    s.filter(|v: NodeView| v.name != name)
}

/// The elements of `a` that are not in `b`.
pub open spec fn seq_minus<A>(a: Seq<A>, b: Seq<A>) -> Seq<A> {
    a.filter(|v: A| !b.contains(v))
}

/// A copy of the interface list.
pub fn copy_interfaces(v: &Vec<Interface>) -> (r: Vec<Interface>)
    ensures
        views(r@) == views(v@),
{
    let mut r: Vec<Interface> = Vec::new();
    for i in 0..v.len()
        invariant
            views(r@) == views(v@).take(i as int),
    {
        let ghost before = r@;
        let x = v[i].duplicate();
        r.push(x);
        assert(views(r@) =~= views(before).push(v@[i as int]@));
        assert(views(v@).take(i + 1) =~= views(v@).take(i as int).push(v@[i as int]@));
    }
    assert(views(v@).take(v@.len() as int) =~= views(v@));
    r
}

/// Whether `x` is in the interface list.
pub fn has_interface(v: &Vec<Interface>, x: &Interface) -> (r: bool)
    ensures
        r == views(v@).contains(x@),
{
    proof {
        crate::set::lemma_order_laws::<Interface>();
    }
    for i in 0..v.len()
        invariant
            forall|k: int| 0 <= k < i ==> views(v@)[k] != x@,
    {
        proof {
            crate::set::lemma_order_laws::<Interface>();
        }
        if v[i].compare(x) == crate::order::Compared::Equal {
            assert(views(v@)[i as int] == x@);
            return true;
        }
    }
    false
}

/// The interfaces of `a` that are not in `b`, in the order of `a`.
pub fn interfaces_minus(a: &Vec<Interface>, b: &Vec<Interface>) -> (r: Vec<Interface>)
    ensures
        views(r@) == seq_minus(views(a@), views(b@)),
{
    let ghost pred = |v: InterfaceView| !views(b@).contains(v);
    let mut r: Vec<Interface> = Vec::new();
    for i in 0..a.len()
        invariant
            pred == (|v: InterfaceView| !views(b@).contains(v)),
            views(r@) == views(a@).take(i as int).filter(pred),
    {
        let ghost before = views(r@);
        proof {
            reveal(Seq::filter);
            assert(views(a@).take(i + 1).drop_last() =~= views(a@).take(i as int));
        }
        if !has_interface(b, &a[i]) {
            let x = a[i].duplicate();
            r.push(x);
            assert(views(r@) =~= before.push(x@));
        }
    }
    assert(views(a@).take(a@.len() as int) =~= views(a@));
    r
}

/// Whether the two interface lists are the same, in order.
pub fn same_interfaces(a: &Vec<Interface>, b: &Vec<Interface>) -> (r: bool)
    ensures
        r == (views(a@) == views(b@)),
{
    proof {
        crate::set::lemma_order_laws::<Interface>();
    }
    if a.len() != b.len() {
        assert(views(a@).len() != views(b@).len());
        return false;
    }
    for i in 0..a.len()
        invariant
            a@.len() == b@.len(),
            forall|k: int| 0 <= k < i ==> views(a@)[k] == views(b@)[k],
    {
        proof {
            crate::set::lemma_order_laws::<Interface>();
        }
        if a[i].compare(&b[i]) != crate::order::Compared::Equal {
            assert(views(a@)[i as int] != views(b@)[i as int]);
            return false;
        }
    }
    assert(views(a@) =~= views(b@));
    true
}

fn nodes_without_name(nodes: &OrderedSet<Node>, name: &String) -> (r: OrderedSet<Node>)
    requires
        nodes.wf(),
    ensures
        r.wf(),
        r@ == without_name(nodes@, name@),
{
    let ghost pred = |v: NodeView| v.name != name@;
    let mut out: OrderedSet<Node> = OrderedSet::new();
    let count = nodes.len();
    for i in 0..count
        invariant
            count == nodes@.len(),
            nodes.wf(),
            pred == (|v: NodeView| v.name != name@),
            out.wf(),
            out@ == nodes@.take(i as int).filter(pred),
            out@.len() > 0 ==> exists|k: int| 0 <= k < i && out@.last() == nodes@[k],
    {
        let ghost before = out@;
        proof {
            reveal(Seq::filter);
            assert(nodes@.take(i + 1).drop_last() =~= nodes@.take(i as int));
        }
        let n = nodes.get(i);
        if n.name != *name {
            let x = n.duplicate();
            proof {
                if before.len() > 0 {
                    let k = choose|k: int| 0 <= k < i && before.last() == nodes@[k];
                    assert(Node::order(nodes@[k], nodes@[i as int]) == crate::order::Compared::Less);
                }
            }
            out.push_last(x);
        }
    }
    assert(nodes@.take(nodes@.len() as int) =~= nodes@);
    out
}

fn services_without_fqn(services: &OrderedSet<Service>, fqn: &String) -> (r: OrderedSet<Service>)
    requires
        services.wf(),
    ensures
        r.wf(),
        r@ == without_fqn(services@, fqn@),
{
    let ghost pred = |v: ServiceView| fqn_of(v) != fqn@;
    let mut out: OrderedSet<Service> = OrderedSet::new();
    let count = services.len();
    for i in 0..count
        invariant
            count == services@.len(),
            services.wf(),
            pred == (|v: ServiceView| fqn_of(v) != fqn@),
            out.wf(),
            out@ == services@.take(i as int).filter(pred),
            out@.len() > 0 ==> exists|k: int| 0 <= k < i && out@.last() == services@[k],
    {
        let ghost before = out@;
        proof {
            reveal(Seq::filter);
            assert(services@.take(i + 1).drop_last() =~= services@.take(i as int));
        }
        let s = services.get(i);
        let f = s.fqn();
        if f != *fqn {
            let x = s.duplicate();
            proof {
                if before.len() > 0 {
                    let k = choose|k: int| 0 <= k < i && before.last() == services@[k];
                    assert(Service::order(services@[k], services@[i as int])
                        == crate::order::Compared::Less);
                }
            }
            out.push_last(x);
        }
    }
    assert(services@.take(services@.len() as int) =~= services@);
    out
}

impl State {
    /// The sets are kept sorted without duplicates.
    pub open spec fn wf(&self) -> bool {
        self.services.wf() && self.nodes.wf()
    }

    /// No interface, service or node.
    pub fn new() -> (r: State)
        ensures
            r.wf(),
            r@.interfaces.len() == 0,
            r@.services.len() == 0,
            r@.nodes.len() == 0,
    {
        let r = State { interfaces: Vec::new(), services: OrderedSet::new(), nodes: OrderedSet::new() };
        assert(r@.interfaces =~= Seq::<InterfaceView>::empty());
        r
    }

    /// Whether there is neither a service nor a node; interfaces are not counted.
    pub fn is_empty(&self) -> (r: bool)
        ensures
            r == (self@.services.len() == 0 && self@.nodes.len() == 0),
    {
        self.services.is_empty() && self.nodes.is_empty()
    }

    /// The services and nodes of `self` that `rhs` lacks, with the interfaces of `self`.
    pub fn difference(&self, rhs: &State) -> (r: State)
        requires
            self.wf(),
        ensures
            r.wf(),
            r@.interfaces == self@.interfaces,
            r@.services == seq_minus(self@.services, rhs@.services),
            r@.nodes == seq_minus(self@.nodes, rhs@.nodes),
    {
        State {
            interfaces: copy_interfaces(&self.interfaces),
            services: self.services.difference(&rhs.services),
            nodes: self.nodes.difference(&rhs.nodes),
        }
    }

    /// What was added since `prev_state` and what was removed from it.
    pub fn diff(&self, prev_state: &State) -> (r: (State, State))
        requires
            self.wf(),
            prev_state.wf(),
        ensures
            r.0.wf(),
            r.1.wf(),
            r.0@.interfaces == self@.interfaces,
            r.0@.services == seq_minus(self@.services, prev_state@.services),
            r.0@.nodes == seq_minus(self@.nodes, prev_state@.nodes),
            r.1@.interfaces == prev_state@.interfaces,
            r.1@.services == seq_minus(prev_state@.services, self@.services),
            r.1@.nodes == seq_minus(prev_state@.nodes, self@.nodes),
    {
        let added = self.difference(prev_state);
        let removed = prev_state.difference(self);
        (added, removed)
    }

    /// The same state with these interfaces in place of its own, in the order given.
    pub fn with_interfaces(self, interfaces: Vec<Interface>) -> (r: State)
        ensures
            r.wf() == self.wf(),
            r@ == (StateView { interfaces: views(interfaces@), ..self@ }),
    {
        State { interfaces, ..self }
    }

    /// The same state with the set of these nodes.
    pub fn with_nodes(self, nodes: Vec<Node>) -> (r: State)
        ensures
            r.wf() == self.services.wf(),
            r.nodes.wf(),
            r@.interfaces == self@.interfaces,
            r@.services == self@.services,
            r@.nodes.to_set() == views(nodes@).to_set(),
    {
        State { nodes: OrderedSet::from_vec(nodes), ..self }
    }

    /// The same state with the set of these services.
    pub fn with_services(self, services: Vec<Service>) -> (r: State)
        ensures
            r.wf() == self.nodes.wf(),
            r.services.wf(),
            r@.interfaces == self@.interfaces,
            r@.nodes == self@.nodes,
            r@.services.to_set() == views(services@).to_set(),
    {
        State { services: OrderedSet::from_vec(services), ..self }
    }

    /// A copy of the state.
    pub fn duplicate(&self) -> (r: State)
        ensures
            r@ == self@,
            r.wf() == self.wf(),
    {
        State {
            interfaces: copy_interfaces(&self.interfaces),
            services: self.services.duplicate(),
            nodes: self.nodes.duplicate(),
        }
    }
}

impl Default for State {
    fn default() -> (r: State)
        ensures
            r.wf(),
            r@.interfaces.len() == 0,
            r@.services.len() == 0,
            r@.nodes.len() == 0,
    {
        State::new()
    }
}

} // verus!

verus! {

/// A change to the state.
#[derive(Clone, Debug)]
pub enum Op {
    NodeAdd(Node),
    NodeRemove(String),
    ServiceAdd(Service),
    ServiceRemove(String),
}

pub enum OpView {
    NodeAdd(NodeView),
    NodeRemove(Seq<char>),
    ServiceAdd(ServiceView),
    ServiceRemove(Seq<char>),
}

impl View for Op {
    type V = OpView;

    open spec fn view(&self) -> OpView {
        match self {
            Op::NodeAdd(n) => OpView::NodeAdd(n@),
            Op::NodeRemove(name) => OpView::NodeRemove(name@),
            Op::ServiceAdd(s) => OpView::ServiceAdd(s@),
            Op::ServiceRemove(fqn) => OpView::ServiceRemove(fqn@),
        }
    }
}

/// The services and nodes of a state, as sets.
pub struct Contents {
    pub services: Set<ServiceView>,
    pub nodes: Set<NodeView>,
}

/// The contents of a state.
pub open spec fn contents(s: StateView) -> Contents {
    Contents { services: s.services.to_set(), nodes: s.nodes.to_set() }
}

/// What an operation does to the contents of a state: an addition adds the value, a removal
/// drops every node of that name or every service of that fully qualified name.
pub open spec fn apply_op(op: OpView, c: Contents) -> Contents {
    match op {
        OpView::NodeAdd(n) => Contents { nodes: c.nodes.insert(n), ..c },
        OpView::NodeRemove(name) => Contents { nodes: c.nodes.filter(|v: NodeView| v.name != name), ..c },
        OpView::ServiceAdd(s) => Contents { services: c.services.insert(s), ..c },
        OpView::ServiceRemove(fqn) => Contents {
            services: c.services.filter(|v: ServiceView| fqn_of(v) != fqn),
            ..c
        },
    }
}

/// What a sequence of operations does, in order.
pub open spec fn apply_ops(ops: Seq<OpView>, c: Contents) -> Contents
    decreases ops.len(),
{
    if ops.len() == 0 {
        c
    } else {
        apply_op(ops.last(), apply_ops(ops.drop_last(), c))
    }
}

proof fn lemma_filter_to_set<A>(s: Seq<A>, p: spec_fn(A) -> bool)
    ensures
        s.filter(p).to_set() == s.to_set().filter(p),
{
    assert forall|x: A| s.filter(p).to_set().contains(x) <==> s.to_set().filter(p).contains(x) by {
        if s.filter(p).contains(x) {
            s.lemma_filter_contains_rev(p, x);
            let k = choose|k: int| 0 <= k < s.filter(p).len() && s.filter(p)[k] == x;
            s.lemma_filter_pred(p, k);
        }
        if s.contains(x) && p(x) {
            let k = choose|k: int| 0 <= k < s.len() && s[k] == x;
            s.lemma_filter_contains(p, k);
        }
    }
    assert(s.filter(p).to_set() =~= s.to_set().filter(p));
}

impl Op {
    /// Applies the operation to `state`; interfaces are kept.
    pub fn apply(&self, state: &mut State)
        requires
            old(state).wf(),
        ensures
            final(state).wf(),
            final(state)@.interfaces == old(state)@.interfaces,
            contents(final(state)@) == apply_op(self@, contents(old(state)@)),
    {
        match self {
            Op::NodeAdd(node) => {
                state.nodes.insert(node.duplicate());
            },
            Op::NodeRemove(node_name) => {
                let kept = nodes_without_name(&state.nodes, node_name);
                state.nodes = kept;
                proof {
                    lemma_filter_to_set(old(state)@.nodes, |v: NodeView| v.name != node_name@);
                }
            },
            Op::ServiceAdd(service) => {
                state.services.insert(service.duplicate());
            },
            Op::ServiceRemove(svc_fqn) => {
                let kept = services_without_fqn(&state.services, svc_fqn);
                state.services = kept;
                proof {
                    lemma_filter_to_set(old(state)@.services, |v: ServiceView| fqn_of(v) != svc_fqn@);
                }
            },
        }
    }
}

/// Applies the operations to `state` in order.
pub fn apply(ops: &Vec<Op>, state: &mut State)
    requires
        old(state).wf(),
    ensures
        final(state).wf(),
        final(state)@.interfaces == old(state)@.interfaces,
        contents(final(state)@) == apply_ops(views(ops@), contents(old(state)@)),
{
    let ghost start = contents(state@);
    for i in 0..ops.len()
        invariant
            state.wf(),
            state@.interfaces == old(state)@.interfaces,
            start == contents(old(state)@),
            contents(state@) == apply_ops(views(ops@).take(i as int), start),
    {
        ops[i].apply(state);
        proof {
            assert(views(ops@).take(i + 1).drop_last() =~= views(ops@).take(i as int));
        }
    }
    assert(views(ops@).take(ops@.len() as int) =~= views(ops@));
}

} // verus!

verus! {

/// A batch of state changes.
pub struct Ops(pub Vec<Op>);

/// A watch event on a resource; each object is `None` where it could not be read.
pub enum Event<T> {
    Applied(T),
    Restarted(Vec<T>),
    Deleted(T),
}

/// The view of an optional service.
pub open spec fn opt_service(o: Option<Service>) -> Option<ServiceView> {
    match o {
        Some(s) => Some(s@),
        None => None,
    }
}

/// The view of an optional node.
pub open spec fn opt_node(o: Option<Node>) -> Option<NodeView> {
    match o {
        Some(n) => Some(n@),
        None => None,
    }
}

/// One addition for each readable service that asks for an external port, in order.
pub open spec fn restarted_service_ops(objs: Seq<Option<ServiceView>>) -> Seq<OpView>
    decreases objs.len(),
{
    if objs.len() == 0 {
        Seq::empty()
    } else {
        let rest = restarted_service_ops(objs.drop_last());
        match objs.last() {
            Some(s) => if s.ports.len() > 0 {
                rest.push(OpView::ServiceAdd(s))
            } else {
                rest
            },
            None => rest,
        }
    }
}

/// One addition for each readable active node, in order.
pub open spec fn restarted_node_ops(objs: Seq<Option<NodeView>>) -> Seq<OpView>
    decreases objs.len(),
{
    if objs.len() == 0 {
        Seq::empty()
    } else {
        let rest = restarted_node_ops(objs.drop_last());
        match objs.last() {
            Some(n) => if n.is_active {
                rest.push(OpView::NodeAdd(n))
            } else {
                rest
            },
            None => rest,
        }
    }
}

/// The operations that a service event stands for: an applied service replaces the one of
/// its name (and is dropped when it asks for no external port), a restart adds every
/// service that asks for one, a deletion removes the service of its name.
pub open spec fn service_event_ops(e: Event<Option<Service>>) -> Seq<OpView> {
    match e {
        Event::Applied(Some(s)) => if s@.ports.len() > 0 {
            seq![OpView::ServiceRemove(fqn_of(s@)), OpView::ServiceAdd(s@)]
        } else {
            seq![OpView::ServiceRemove(fqn_of(s@))]
        },
        Event::Restarted(objs) => restarted_service_ops(objs@.map_values(|o: Option<Service>| opt_service(o))),
        Event::Deleted(Some(s)) => seq![OpView::ServiceRemove(fqn_of(s@))],
        _ => Seq::empty(),
    }
}

/// The operations that a node event stands for: an applied node replaces the one of its name
/// (and is dropped when inactive), a restart adds every active node, a deletion removes the
/// node of its name.
pub open spec fn node_event_ops(e: Event<Option<Node>>) -> Seq<OpView> {
    match e {
        Event::Applied(Some(n)) => if n@.is_active {
            seq![OpView::NodeRemove(n@.name), OpView::NodeAdd(n@)]
        } else {
            seq![OpView::NodeRemove(n@.name)]
        },
        Event::Restarted(objs) => restarted_node_ops(objs@.map_values(|o: Option<Node>| opt_node(o))),
        Event::Deleted(Some(n)) => seq![OpView::NodeRemove(n@.name)],
        _ => Seq::empty(),
    }
}

impl IntoIterator for Ops {
    type Item = Op;
    type IntoIter = std::vec::IntoIter<Op>;

    fn into_iter(self) -> (r: std::vec::IntoIter<Op>)
        ensures
            vstd::std_specs::iter::IteratorSpec::remaining(&r) == self.0@,
    {
        broadcast use vstd::std_specs::vec::axiom_spec_into_iter;

        self.0.into_iter()
    }
}

impl Ops {
    /// The operations for a service event.
    pub fn from_service_event(event: Event<Option<Service>>) -> (r: Ops)
        ensures
            views(r.0@) == service_event_ops(event),
    {
        let ghost e = event;
        let mut ret: Vec<Op> = Vec::new();
        match event {
            Event::Applied(Some(svc)) => {
                ret.push(Op::ServiceRemove(svc.fqn()));
                if svc.has_external_port() {
                    ret.push(Op::ServiceAdd(svc));
                }
            },
            Event::Restarted(objs) => {
                let ghost ov = objs@.map_values(|o: Option<Service>| opt_service(o));
                for i in 0..objs.len()
                    invariant
                        ov == objs@.map_values(|o: Option<Service>| opt_service(o)),
                        views(ret@) == restarted_service_ops(ov.take(i as int)),
                {
                    let ghost before = ret@;
                    proof {
                        assert(ov.take(i + 1).drop_last() =~= ov.take(i as int));
                        assert(ov.take(i + 1).last() == opt_service(objs@[i as int]));
                    }
                    match &objs[i] {
                        Some(s) => {
                            if s.has_external_port() {
                                ret.push(Op::ServiceAdd(s.duplicate()));
                                assert(views(ret@) =~= views(before).push(ret@.last()@));
                            }
                        },
                        None => {},
                    }
                }
                assert(ov.take(objs@.len() as int) =~= ov);
            },
            Event::Deleted(Some(svc)) => {
                ret.push(Op::ServiceRemove(svc.fqn()));
            },
            _ => {},
        }
        proof {
            if !(e is Restarted) {
                assert(views(ret@) =~= service_event_ops(e));
            }
        }
        Ops(ret)
    }

    /// The operations for a node event.
    pub fn from_node_event(event: Event<Option<Node>>) -> (r: Ops)
        ensures
            views(r.0@) == node_event_ops(event),
    {
        let ghost e = event;
        let mut ret: Vec<Op> = Vec::new();
        match event {
            Event::Applied(Some(node)) => {
                ret.push(Op::NodeRemove(node.name.clone()));
                if node.is_active {
                    ret.push(Op::NodeAdd(node));
                }
            },
            Event::Restarted(objs) => {
                let ghost ov = objs@.map_values(|o: Option<Node>| opt_node(o));
                for i in 0..objs.len()
                    invariant
                        ov == objs@.map_values(|o: Option<Node>| opt_node(o)),
                        views(ret@) == restarted_node_ops(ov.take(i as int)),
                {
                    let ghost before = ret@;
                    proof {
                        assert(ov.take(i + 1).drop_last() =~= ov.take(i as int));
                        assert(ov.take(i + 1).last() == opt_node(objs@[i as int]));
                    }
                    match &objs[i] {
                        Some(n) => {
                            if n.is_active {
                                ret.push(Op::NodeAdd(n.duplicate()));
                                assert(views(ret@) =~= views(before).push(ret@.last()@));
                            }
                        },
                        None => {},
                    }
                }
                assert(ov.take(objs@.len() as int) =~= ov);
            },
            Event::Deleted(Some(node)) => {
                ret.push(Op::NodeRemove(node.name));
            },
            _ => {},
        }
        proof {
            if !(e is Restarted) {
                assert(views(ret@) =~= node_event_ops(e));
            }
        }
        Ops(ret)
    }
}

} // verus!
