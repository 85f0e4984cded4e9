use vstd::prelude::*;
use vstd::string::StringExecFns;

use crate::ordered::Ordered;
use crate::res::{
    fqn_of, Interface, InterfaceView, Node, NodeView, PortSpec, Proto, Service, ServiceView,
};
use crate::laws::{ids_apart, lemma_reconcile_syncs, tags_hold_ids};
use crate::set::views;
use crate::state::{copy_interfaces, interfaces_minus, same_interfaces, seq_minus, State, StateView};
use crate::text::{
    bool_text, contains, contains_text, decimal, double_colon, join, prefix, push_bool,
    push_char, push_decimal, push_double_colon,
};

verus! {

/// What `sha256::digest` returns for a text: the SHA-256 digest of its UTF-8 bytes, in hex.
pub uninterp spec fn sha256_hex(data: Seq<char>) -> Seq<char>;

/// A lowercase hexadecimal digit.
pub open spec fn is_lower_hex(c: char) -> bool {
    ('0' <= c && c <= '9') || ('a' <= c && c <= 'f')
}

/// An id: 16 lowercase hexadecimal digits.
pub open spec fn is_hex_id(s: Seq<char>) -> bool {
    s.len() == 16 && forall|i: int| 0 <= i < s.len() ==> is_lower_hex(#[trigger] s[i])
}

/// `sha256::digest` on a `&str`. Claimed: the result is `sha256_hex` of the text and, as
/// `hex::encode` writes the 32 bytes of the digest, 64 lowercase hexadecimal digits.
#[verifier::external_body]
fn digest(data: &str) -> (r: String)
    ensures
        r@ == sha256_hex(data@),
        r@.len() == 64,
        forall|i: int| 0 <= i < r@.len() ==> is_lower_hex(#[trigger] r@[i]),
{
    sha256::digest(data)
}

/// A digest cut to its first 16 characters, as `String::truncate(16)` leaves it.
pub open spec fn short(d: Seq<char>) -> Seq<char> {
    if d.len() <= 16 {
        d
    } else {
        d.take(16)
    }
}

/// The first 16 hex digits of the digest of `t`.
pub open spec fn short_hash(t: Seq<char>) -> Seq<char> {
    short(sha256_hex(t))
}

/// Cuts a digest to its first 16 characters.
pub fn short_id(digest: &str) -> (r: String)
    ensures
        r@ == short(digest@),
{
    prefix(digest, 16)
}

fn short_digest(data: &str) -> (r: String)
    ensures
        r@ == short_hash(data@),
        is_hex_id(r@),
{
    let d = digest(data);
    let r = short_id(d.as_str());
    assert forall|i: int| 0 <= i < r@.len() implies is_lower_hex(#[trigger] r@[i]) by {
        assert(r@[i] == d@[i]);
    }
    r
}

/// The text of a protocol.
pub open spec fn proto_text(p: Proto) -> Seq<char> {
    match p {
        Proto::Tcp => seq!['t', 'c', 'p'],
        Proto::Udp => seq!['u', 'd', 'p'],
    }
}

/// The text of a port spec: `host:node/proto`.
pub open spec fn port_text(p: PortSpec) -> Seq<char> {
    decimal(p.host_port as nat) + seq![':'] + decimal(p.node_port as nat) + seq!['/'] + proto_text(
        p.proto,
    )
}

/// The texts of the port specs, joined by `::`.
pub open spec fn ports_text(ps: Seq<PortSpec>) -> Seq<char> {
    join(ps.map_values(|p: PortSpec| port_text(p)), double_colon())
}

/// The text hashed into a service id, after the short hash of the service's name: the ports,
/// the internal flag and the allowed range.
pub open spec fn service_key(fqn_hash: Seq<char>, s: ServiceView) -> Seq<char> {
    fqn_hash + ports_text(s.ports) + bool_text(s.is_internal) + match s.allow_range {
        Some(r) => r,
        None => Seq::empty(),
    }
}

/// The text hashed into a service id.
pub open spec fn service_id_text(s: ServiceView) -> Seq<char> {
    service_key(short_hash(fqn_of(s)), s)
}

/// The id of a service: it changes whenever the service does.
pub open spec fn service_id_of(s: ServiceView) -> Seq<char> {
    short_hash(service_id_text(s))
}

/// A forwarding rule: traffic of `service` arriving on `interface` goes to `node`, the
/// `node_index`-th of `num_nodes` nodes.
#[derive(Clone, Debug, PartialEq, Eq)]
pub struct Rule {
    pub node: Node,
    pub service: Service,
    pub interface: Interface,
    pub num_nodes: usize,
    pub node_index: usize,
}

pub struct RuleView {
    pub node: NodeView,
    pub service: ServiceView,
    pub interface: InterfaceView,
    pub num_nodes: usize,
    pub node_index: usize,
}

impl View for Rule {
    type V = RuleView;

    open spec fn view(&self) -> RuleView {
        RuleView {
            node: self.node@,
            service: self.service@,
            interface: self.interface@,
            num_nodes: self.num_nodes,
            node_index: self.node_index,
        }
    }
}

/// The text hashed into a rule id, after the service id: node address, number of nodes, node
/// index, interface name and external flag, separated by `::`.
pub open spec fn rule_key(service_id: Seq<char>, r: RuleView) -> Seq<char> {
    service_id + double_colon() + r.node.addr + double_colon() + decimal(
        r.num_nodes as nat,
    ) + double_colon() + decimal(r.node_index as nat) + double_colon() + r.interface.name
        + double_colon() + bool_text(r.interface.is_external)
}

/// The text hashed into a rule id.
pub open spec fn rule_id_text(r: RuleView) -> Seq<char> {
    rule_key(service_id_of(r.service), r)
}

/// The id of a rule.
pub open spec fn rule_id_of(r: RuleView) -> Seq<char> {
    short_hash(rule_id_text(r))
}

fn push_port(s: &mut String, p: &PortSpec)
    ensures
        final(s)@ == old(s)@ + port_text(*p),
{
    push_decimal(s, p.host_port as usize);
    push_char(s, ':');
    push_decimal(s, p.node_port as usize);
    push_char(s, '/');
    match p.proto {
        Proto::Tcp => {
            s.append("tcp");
            proof {
                reveal_strlit("tcp");
            }
        },
        Proto::Udp => {
            s.append("udp");
            proof {
                reveal_strlit("udp");
            }
        },
    }
    assert(final(s)@ =~= old(s)@ + port_text(*p));
}

fn push_ports(s: &mut String, ps: &Vec<PortSpec>)
    ensures
        final(s)@ == old(s)@ + ports_text(ps@),
{
    let ghost texts = ps@.map_values(|p: PortSpec| port_text(p));
    let ghost start = s@;
    for i in 0..ps.len()
        invariant
            texts == ps@.map_values(|p: PortSpec| port_text(p)),
            s@ == start + join(texts.take(i as int), double_colon()),
    {
        let ghost before = s@;
        if i > 0 {
            push_double_colon(s);
        }
        push_port(s, &ps[i]);
        proof {
            let t = texts.take(i + 1);
            assert(t.drop_last() =~= texts.take(i as int));
            assert(t.last() == port_text(ps@[i as int]));
            if i == 0 {
                assert(t =~= seq![port_text(ps@[0])]);
                assert(join(texts.take(0), double_colon()) =~= Seq::<char>::empty());
                assert(s@ =~= start + join(t, double_colon()));
            } else {
                assert(s@ =~= start + join(t, double_colon()));
            }
        }
    }
    assert(texts.take(ps@.len() as int) =~= texts);
}

impl Rule {
    /// The text hashed into the service id, given the short hash of the service's name.
    pub fn service_key(&self, fqn_hash: &str) -> (r: String)
        ensures
            r@ == service_key(fqn_hash@, self.service@),
    {
        let mut text = String::from_str(fqn_hash);
        push_ports(&mut text, &self.service.external_ports.specs);
        push_bool(&mut text, self.service.is_internal);
        match &self.service.allow_range {
            Some(range) => text.append(range.as_str()),
            None => {},
        }
        assert(text@ =~= service_key(fqn_hash@, self.service@));
        text
    }

    /// The id of the rule's service.
    pub fn service_id(&self) -> (r: String)
        ensures
            r@ == service_id_of(self.service@),
            is_hex_id(r@),
    {
        let fqn = self.service.fqn();
        let fqn_hash = short_digest(fqn.as_str());
        let text = self.service_key(fqn_hash.as_str());
        short_digest(text.as_str())
    }

    /// The text hashed into the rule id, given the service id.
    pub fn rule_key(&self, service_id: &str) -> (r: String)
        ensures
            r@ == rule_key(service_id@, self@),
    {
        let mut text = String::from_str(service_id);
        push_double_colon(&mut text);
        text.append(self.node.addr.as_str());
        push_double_colon(&mut text);
        push_decimal(&mut text, self.num_nodes);
        push_double_colon(&mut text);
        push_decimal(&mut text, self.node_index);
        push_double_colon(&mut text);
        text.append(self.interface.name.as_str());
        push_double_colon(&mut text);
        push_bool(&mut text, self.interface.is_external);
        assert(text@ =~= rule_key(service_id@, self@));
        text
    }

    /// The id of the rule.
    pub fn rule_id(&self) -> (r: String)
        ensures
            r@ == rule_id_of(self@),
            is_hex_id(r@),
    {
        let service_id = self.service_id();
        let text = self.rule_key(service_id.as_str());
        short_digest(text.as_str())
    }
}

/// The rule for one node, service and interface; none where an internal service meets an
/// external interface.
pub open spec fn rule_for(
    node: NodeView,
    index: usize,
    count: usize,
    svc: ServiceView,
    iface: InterfaceView,
) -> Seq<RuleView> {
    if iface.is_external && svc.is_internal {
        Seq::empty()
    } else {
        seq![RuleView { node, service: svc, interface: iface, num_nodes: count, node_index: index }]
    }
}

/// The rules for one node and service, interface by interface.
pub open spec fn interface_rules(
    node: NodeView,
    index: usize,
    count: usize,
    svc: ServiceView,
    ifaces: Seq<InterfaceView>,
) -> Seq<RuleView>
    decreases ifaces.len(),
{
    if ifaces.len() == 0 {
        Seq::empty()
    } else {
        interface_rules(node, index, count, svc, ifaces.drop_last()) + rule_for(
            node,
            index,
            count,
            svc,
            ifaces.last(),
        )
    }
}

/// The rules for one node, service by service.
pub open spec fn service_rules(
    node: NodeView,
    index: usize,
    count: usize,
    svcs: Seq<ServiceView>,
    ifaces: Seq<InterfaceView>,
) -> Seq<RuleView>
    decreases svcs.len(),
{
    if svcs.len() == 0 {
        Seq::empty()
    } else {
        service_rules(node, index, count, svcs.drop_last(), ifaces) + interface_rules(
            node,
            index,
            count,
            svcs.last(),
            ifaces,
        )
    }
}

/// The rules for the nodes, node by node; a node's index is its position.
pub open spec fn node_rules(
    nodes: Seq<NodeView>,
    count: usize,
    svcs: Seq<ServiceView>,
    ifaces: Seq<InterfaceView>,
) -> Seq<RuleView>
    decreases nodes.len(),
{
    if nodes.len() == 0 {
        Seq::empty()
    } else {
        node_rules(nodes.drop_last(), count, svcs, ifaces) + service_rules(
            nodes.last(),
            (nodes.len() - 1) as usize,
            count,
            svcs,
            ifaces,
        )
    }
}

/// The rules of a state: for each node (in order, with its index), each service (in order)
/// and each interface (in the order of the list, a repeated one again), one rule, except where
/// an internal service meets an external interface.
pub open spec fn rules_for(st: StateView) -> Seq<RuleView> {
    node_rules(st.nodes, st.nodes.len() as usize, st.services, st.interfaces)
}

/// The rules of a state.
pub fn make_rules(state: &State) -> (r: Vec<Rule>)
    ensures
        views(r@) == rules_for(state@),
{
    let count = state.nodes.len();
    let ghost nodes = state@.nodes;
    let ghost svcs = state@.services;
    let ghost ifaces = state@.interfaces;
    let mut rules: Vec<Rule> = Vec::new();
    for i in 0..count
        invariant
            count == nodes.len(),
            nodes == state@.nodes,
            svcs == state@.services,
            ifaces == state@.interfaces,
            views(rules@) == node_rules(nodes.take(i as int), count, svcs, ifaces),
    {
        let node = state.nodes.get(i);
        let ghost base = views(rules@);
        let nsvc = state.services.len();
        for j in 0..nsvc
            invariant
                count == nodes.len(),
                i < count,
                nsvc == svcs.len(),
                nodes == state@.nodes,
                svcs == state@.services,
                ifaces == state@.interfaces,
                node@ == nodes[i as int],
                base == node_rules(nodes.take(i as int), count, svcs, ifaces),
                views(rules@) == base + service_rules(node@, i, count, svcs.take(j as int), ifaces),
        {
            let svc = state.services.get(j);
            let ghost mid = views(rules@);
            let nif = state.interfaces.len();
            for k in 0..nif
                invariant
                    i < count,
                    j < nsvc,
                    nsvc == svcs.len(),
                    nif == ifaces.len(),
                    svcs == state@.services,
                    ifaces == state@.interfaces,
                    node@ == nodes[i as int],
                    svc@ == svcs[j as int],
                    mid == base + service_rules(node@, i, count, svcs.take(j as int), ifaces),
                    views(rules@) == mid + interface_rules(
                        node@,
                        i,
                        count,
                        svc@,
                        ifaces.take(k as int),
                    ),
            {
                let iface = &state.interfaces[k];
                let ghost before = views(rules@);
                proof {
                    assert(ifaces.take(k + 1).drop_last() =~= ifaces.take(k as int));
                    assert(ifaces.take(k + 1).last() == iface@);
                }
                if !(iface.is_external && svc.is_internal) {
                    let rule = Rule {
                        node: node.duplicate(),
                        service: svc.duplicate(),
                        interface: iface.duplicate(),
                        num_nodes: count,
                        node_index: i,
                    };
                    rules.push(rule);
                    assert(views(rules@) =~= before.push(rule@));
                }
                assert(views(rules@) =~= mid + interface_rules(
                    node@,
                    i,
                    count,
                    svc@,
                    ifaces.take(k + 1),
                ));
            }
            proof {
                assert(ifaces.take(nif as int) =~= ifaces);
                assert(svcs.take(j + 1).drop_last() =~= svcs.take(j as int));
                assert(svcs.take(j + 1).last() == svc@);
                assert(views(rules@) =~= base + service_rules(
                    node@,
                    i,
                    count,
                    svcs.take(j + 1),
                    ifaces,
                ));
            }
        }
        proof {
            assert(svcs.take(nsvc as int) =~= svcs);
            assert(nodes.take(i + 1).drop_last() =~= nodes.take(i as int));
            assert(nodes.take(i + 1).last() == node@);
            assert(views(rules@) =~= node_rules(nodes.take(i + 1), count, svcs, ifaces));
        }
    }
    assert(nodes.take(count as int) =~= nodes);
    rules
}

/// Which rules a backend is to delete, by the text that the backend keeps with each rule.
pub enum DeleteFilter {
    /// Every rule.
    All,
    /// The rules whose text contains at least one of these ids.
    ContainingAny(Vec<String>),
    /// The rules whose text contains none of these ids.
    ContainingNone(Vec<String>),
}

pub enum DeleteFilterView {
    All,
    ContainingAny(Seq<Seq<char>>),
    ContainingNone(Seq<Seq<char>>),
}

impl View for DeleteFilter {
    type V = DeleteFilterView;

    open spec fn view(&self) -> DeleteFilterView {
        match self {
            DeleteFilter::All => DeleteFilterView::All,
            DeleteFilter::ContainingAny(ids) => DeleteFilterView::ContainingAny(views(ids@)),
            DeleteFilter::ContainingNone(ids) => DeleteFilterView::ContainingNone(views(ids@)),
        }
    }
}

/// Whether one of the ids occurs in `tag`.
pub open spec fn holds_any(tag: Seq<char>, ids: Seq<Seq<char>>) -> bool {
    exists|i: int| 0 <= i < ids.len() && #[trigger] contains_text(tag, ids[i])
}

/// Whether the filter selects a rule kept with the text `tag`.
pub open spec fn deletes(f: DeleteFilterView, tag: Seq<char>) -> bool {
    match f {
        DeleteFilterView::All => true,
        DeleteFilterView::ContainingAny(ids) => holds_any(tag, ids),
        DeleteFilterView::ContainingNone(ids) => !holds_any(tag, ids),
    }
}

impl DeleteFilter {
    /// Whether the rule kept with the text `rule` is to be deleted.
    pub fn matches(&self, rule: &str) -> (r: bool)
        ensures
            r == deletes(self@, rule@),
    {
        match self {
            DeleteFilter::All => true,
            DeleteFilter::ContainingAny(ids) => {
                for i in 0..ids.len()
                    invariant
                        self@ == DeleteFilterView::ContainingAny(views(ids@)),
                        forall|k: int| 0 <= k < i ==> !contains_text(rule@, #[trigger] views(ids@)[k]),
                {
                    if contains(rule, ids[i].as_str()) {
                        let ghost w = views(ids@);
                        assert(contains_text(rule@, w[i as int]));
                        assert(0 <= i < w.len());
                        assert(deletes(DeleteFilterView::ContainingAny(w), rule@));
                        return true;
                    }
                }
                assert(self@ == DeleteFilterView::ContainingAny(views(ids@)));
                false
            },
            DeleteFilter::ContainingNone(ids) => {
                for i in 0..ids.len()
                    invariant
                        self@ == DeleteFilterView::ContainingNone(views(ids@)),
                        forall|k: int| 0 <= k < i ==> !contains_text(rule@, #[trigger] views(ids@)[k]),
                {
                    if contains(rule, ids[i].as_str()) {
                        let ghost w = views(ids@);
                        assert(contains_text(rule@, w[i as int]));
                        assert(!deletes(DeleteFilterView::ContainingNone(w), rule@));
                        return false;
                    }
                }
                assert(self@ == DeleteFilterView::ContainingNone(views(ids@)));
                true
            },
        }
    }
}

/// An error of the operator or of its backend.
#[derive(Debug)]
pub enum Error {
    /// A failure that a backend reports.
    Backend(String),
    /// A backend failure, as the operator passes it on.
    OperatorError(Box<Error>),
}

/// Where the rules live: something that can add rules and delete them by their text.
pub trait Backend {
    /// Whether the backend keeps to the laws that the contracts below state; a backend that
    /// does not say so is promised nothing of.
    open spec fn obeys_backend_laws() -> bool {
        false
    }

    /// The rules that the backend holds, in the order it added them.
    open spec fn held(&self) -> Seq<RuleView> {
        Seq::empty()
    }

    /// The rules that are in place where the backend puts them.
    open spec fn installed(&self) -> Seq<RuleView> {
        Seq::empty()
    }

    /// The text that the backend keeps with a rule; deletion filters are matched against it.
    open spec fn tag(r: RuleView) -> Seq<char> {
        Seq::empty()
    }

    /// What adding `rules` answers, from this backend.
    open spec fn apply_answer(&self, rules: Seq<RuleView>) -> Result<(), Error> {
        Ok(())
    }

    /// What deleting by `filter` answers, from this backend.
    open spec fn delete_answer(&self, filter: DeleteFilterView) -> Result<(), Error> {
        Ok(())
    }

    /// Reads the rules that are in place: afterwards it holds them.
    fn read_state(&mut self)
        ensures
            Self::obeys_backend_laws() ==> final(self).held() == old(self).installed()
                && final(self).installed() == old(self).installed(),
    ;

    /// Adds the rules after those it holds and those in place; a failure changes neither.
    fn apply_rules(&mut self, rules: Vec<Rule>) -> (r: Result<(), Error>)
        ensures
            Self::obeys_backend_laws() ==> r == old(self).apply_answer(views(rules@)),
            Self::obeys_backend_laws() && r is Ok ==> final(self).held() == old(self).held()
                + views(rules@) && final(self).installed() == old(self).installed() + views(
                rules@,
            ),
            Self::obeys_backend_laws() && r is Err ==> final(self).held() == old(self).held()
                && final(self).installed() == old(self).installed(),
    ;

    /// Deletes the rules whose text the filter selects, from those it holds and those in
    /// place; a failure changes neither.
    fn delete_rules(&mut self, filter: &DeleteFilter) -> (r: Result<(), Error>)
        ensures
            Self::obeys_backend_laws() ==> r == old(self).delete_answer(filter@),
            Self::obeys_backend_laws() && r is Ok ==> final(self).held() == old(self).held().filter(
                |x: RuleView| !deletes(filter@, Self::tag(x)),
            ) && final(self).installed() == old(self).installed().filter(
                |x: RuleView| !deletes(filter@, Self::tag(x)),
            ),
            Self::obeys_backend_laws() && r is Err ==> final(self).held() == old(self).held()
                && final(self).installed() == old(self).installed(),
    ;
}

/// The rules of `s` that a backend of type `B` keeps when deleting by `filter`.
pub open spec fn kept<B: Backend>(s: Seq<RuleView>, filter: DeleteFilterView) -> Seq<RuleView> {
    s.filter(|x: RuleView| !deletes(filter, B::tag(x)))
}

/// `b` is what a backend that was `b0` became on reading its state.
pub open spec fn read_from<B: Backend>(b: B, b0: B) -> bool {
    b.held() == b0.installed() && b.installed() == b0.installed()
}

/// Deleting by `filter` took `c`, which is `b` after adding `added`, to `fin`, and `r` is its
/// answer, wrapped in `OperatorError` where `wrap` says so.
pub open spec fn deleted_after_adding<B: Backend>(
    c: B,
    b: B,
    added: Seq<RuleView>,
    filter: DeleteFilterView,
    wrap: bool,
    r: Result<(), Error>,
    fin: B,
) -> bool {
    &&& c.held() == b.held() + added
    &&& c.installed() == b.installed() + added
    &&& r == (if wrap {
        wrapped(c.delete_answer(filter))
    } else {
        c.delete_answer(filter)
    })
    &&& c.delete_answer(filter) is Ok ==> fin.held() == kept::<B>(c.held(), filter)
        && fin.installed() == kept::<B>(c.installed(), filter)
    &&& c.delete_answer(filter) is Err ==> fin.held() == c.held() && fin.installed()
        == c.installed()
}

/// Carrying out `p` took `b`, the backend just after reading its state, to `fin` with the
/// answer `r`: it added the plan's rules, and only if that succeeded deleted by its filter.
/// A failed addition comes back wrapped in `OperatorError` and changes nothing; the deletion's
/// answer comes back wrapped in a full cycle and as it is when only services changed.
pub open spec fn carried_out<B: Backend>(b: B, p: PlanView, r: Result<(), Error>, fin: B) -> bool {
    match p {
        PlanView::Unchanged => r is Ok && fin == b,
        PlanView::ServicesOnly { apply, delete } => match b.apply_answer(apply) {
            Err(e) => r == Err::<(), Error>(Error::OperatorError(Box::new(e))) && fin.held()
                == b.held() && fin.installed() == b.installed(),
            Ok(_) => exists|c: B| #[trigger]
                deleted_after_adding::<B>(c, b, apply, delete, false, r, fin),
        },
        PlanView::Full { apply, delete } => match b.apply_answer(apply) {
            Err(e) => r == Err::<(), Error>(Error::OperatorError(Box::new(e))) && fin.held()
                == b.held() && fin.installed() == b.installed(),
            Ok(_) => exists|c: B| #[trigger]
                deleted_after_adding::<B>(c, b, apply, delete, true, r, fin),
        },
    }
}

/// A backend as the operator sees it: it keeps each rule with the text `tag(r)`, adds the
/// rules of a plan at the end, then deletes those whose text the plan's filter selects.
pub open spec fn run_plan(
    p: PlanView,
    store: Seq<RuleView>,
    tag: spec_fn(RuleView) -> Seq<char>,
) -> Seq<RuleView> {
    match p {
        PlanView::Unchanged => store,
        PlanView::ServicesOnly { apply, delete } => (store + apply).filter(
            |r: RuleView| !deletes(delete, tag(r)),
        ),
        PlanView::Full { apply, delete } => (store + apply).filter(
            |r: RuleView| !deletes(delete, tag(r)),
        ),
    }
}

/// What a backend of type `B` holds after carrying out `p`, having held `read`.
pub open spec fn after_plan<B: Backend>(p: PlanView, read: Seq<RuleView>) -> Seq<RuleView> {
    run_plan(p, read, |x: RuleView| B::tag(x))
}

/// What a reconciliation hands to the backend.
pub enum Plan {
    /// Nothing changed: the backend is left alone.
    Unchanged,
    /// Only services changed: add these rules, then delete these (an error of the deletion is
    /// passed on as it is).
    ServicesOnly { apply: Vec<Rule>, delete: DeleteFilter },
    /// Nodes or interfaces changed: add these rules, then delete these.
    Full { apply: Vec<Rule>, delete: DeleteFilter },
}

pub enum PlanView {
    Unchanged,
    ServicesOnly { apply: Seq<RuleView>, delete: DeleteFilterView },
    Full { apply: Seq<RuleView>, delete: DeleteFilterView },
}

impl View for Plan {
    type V = PlanView;

    open spec fn view(&self) -> PlanView {
        match self {
            Plan::Unchanged => PlanView::Unchanged,
            Plan::ServicesOnly { apply, delete } => PlanView::ServicesOnly {
                apply: views(apply@),
                delete: delete@,
            },
            Plan::Full { apply, delete } => PlanView::Full { apply: views(apply@), delete: delete@ },
        }
    }
}

/// What reconciling `st` against `prev` hands to the backend. Nothing if no interface,
/// service or node came or went. If nodes and interfaces are the same: the rules of the added
/// services, then the deletion of every rule that holds the id of a removed service. Otherwise:
/// all rules of `st`, then the deletion of every rule that holds none of their ids.
pub open spec fn plan_for(st: StateView, prev: StateView) -> PlanView {
    let added_i = seq_minus(st.interfaces, prev.interfaces);
    let added_s = seq_minus(st.services, prev.services);
    let added_n = seq_minus(st.nodes, prev.nodes);
    let removed_i = seq_minus(prev.interfaces, st.interfaces);
    let removed_s = seq_minus(prev.services, st.services);
    let removed_n = seq_minus(prev.nodes, st.nodes);
    if added_i.len() == 0 && added_s.len() == 0 && added_n.len() == 0 && removed_i.len() == 0
        && removed_s.len() == 0 && removed_n.len() == 0 {
        PlanView::Unchanged
    } else if st.nodes == prev.nodes && st.interfaces == prev.interfaces {
        PlanView::ServicesOnly {
            apply: rules_for(StateView { services: added_s, ..st }),
            delete: DeleteFilterView::ContainingAny(
                rules_for(StateView { services: removed_s, ..st }).map_values(
                    |r: RuleView| service_id_of(r.service),
                ),
            ),
        }
    } else {
        PlanView::Full {
            apply: rules_for(st),
            delete: DeleteFilterView::ContainingNone(
                rules_for(st).map_values(|r: RuleView| rule_id_of(r)),
            ),
        }
    }
}

fn service_ids(rules: &Vec<Rule>) -> (r: Vec<String>)
    ensures
        views(r@) == views(rules@).map_values(|x: RuleView| service_id_of(x.service)),
{
    let mut ids: Vec<String> = Vec::new();
    for i in 0..rules.len()
        invariant
            views(ids@) == views(rules@).take(i as int).map_values(
                |x: RuleView| service_id_of(x.service),
            ),
    {
        let ghost before = views(ids@);
        let id = rules[i].service_id();
        ids.push(id);
        assert(views(ids@) =~= before.push(id@));
        assert(views(rules@).take(i + 1) =~= views(rules@).take(i as int).push(rules@[i as int]@));
        assert(views(ids@) =~= views(rules@).take(i + 1).map_values(
            |x: RuleView| service_id_of(x.service),
        ));
    }
    assert(views(rules@).take(rules@.len() as int) =~= views(rules@));
    ids
}

fn rule_ids(rules: &Vec<Rule>) -> (r: Vec<String>)
    ensures
        views(r@) == views(rules@).map_values(|x: RuleView| rule_id_of(x)),
{
    let mut ids: Vec<String> = Vec::new();
    for i in 0..rules.len()
        invariant
            views(ids@) == views(rules@).take(i as int).map_values(|x: RuleView| rule_id_of(x)),
    {
        let ghost before = views(ids@);
        let id = rules[i].rule_id();
        ids.push(id);
        assert(views(ids@) =~= before.push(id@));
        assert(views(rules@).take(i + 1) =~= views(rules@).take(i as int).push(rules@[i as int]@));
        assert(views(ids@) =~= views(rules@).take(i + 1).map_values(|x: RuleView| rule_id_of(x)));
    }
    assert(views(rules@).take(rules@.len() as int) =~= views(rules@));
    ids
}

/// What reconciling `state` against `prev_state` hands to the backend.
pub fn plan(state: &State, prev_state: &State) -> (r: Plan)
    requires
        state.wf(),
        prev_state.wf(),
    ensures
        r@ == plan_for(state@, prev_state@),
{
    let (added, removed) = state.diff(prev_state);
    let added_interfaces = interfaces_minus(&state.interfaces, &prev_state.interfaces);
    let removed_interfaces = interfaces_minus(&prev_state.interfaces, &state.interfaces);
    if added.is_empty() && removed.is_empty() && added_interfaces.len() == 0
        && removed_interfaces.len() == 0 {
        return Plan::Unchanged;
    }
    if state.nodes.equals(&prev_state.nodes) && same_interfaces(&state.interfaces, &prev_state.interfaces) {
        let removed_state = State {
            interfaces: copy_interfaces(&state.interfaces),
            services: removed.services,
            nodes: state.nodes.duplicate(),
        };
        let removed_ids = service_ids(&make_rules(&removed_state));
        let added_state = State {
            interfaces: copy_interfaces(&state.interfaces),
            services: added.services,
            nodes: state.nodes.duplicate(),
        };
        let apply = make_rules(&added_state);
        assert(removed_state@ == (StateView { services: removed_state@.services, ..state@ }));
        assert(added_state@ == (StateView { services: added_state@.services, ..state@ }));
        return Plan::ServicesOnly { apply, delete: DeleteFilter::ContainingAny(removed_ids) };
    }
    let new_rules = make_rules(state);
    let ids = rule_ids(&new_rules);
    Plan::Full { apply: new_rules, delete: DeleteFilter::ContainingNone(ids) }
}

/// A backend's answer as the operator passes it on: a failure wrapped in `OperatorError`.
pub open spec fn wrapped(r: Result<(), Error>) -> Result<(), Error> {
    match r {
        Ok(()) => Ok(()),
        Err(e) => Err(Error::OperatorError(Box::new(e))),
    }
}

/// Passes a backend's answer on, wrapping a failure in `OperatorError`.
pub fn wrap_backend_result(r: Result<(), Error>) -> (o: Result<(), Error>)
    ensures
        o == wrapped(r),
{
    match r {
        Ok(()) => Ok(()),
        Err(e) => Err(Error::OperatorError(Box::new(e))),
    }
}

/// Keeps the backend's rules in step with the state of the cluster.
pub struct Operator<B> {
    pub backend: B,
}

impl<B: Backend> Operator<B> {
    /// An operator over `backend`.
    pub fn new(backend: B) -> (r: Self)
        ensures
            r.backend == backend,
    {
        Operator { backend }
    }

    /// Brings the backend from the rules of `prev_state` to those of `state`: hands it what
    /// `plan_for` says, after reading its state. On success, a backend that keeps its rules as
    /// `Backend` describes holds what carrying out the plan leaves of the rules it read. A
    /// failure to add rules comes back wrapped in `OperatorError`, as does a failure to delete
    /// them unless only services changed.
    pub fn reconcile(&mut self, state: &State, prev_state: &State) -> (r: Result<(), Error>)
        requires
            state.wf(),
            prev_state.wf(),
        ensures
            plan_for(state@, prev_state@) is Unchanged ==> r is Ok && *final(self) == *old(self),
            plan_for(state@, prev_state@) is Full ==> (r matches Err(e) ==> e is OperatorError),
            B::obeys_backend_laws() && !(plan_for(state@, prev_state@) is Unchanged) ==> exists|
                b: B,
            |
                #![trigger read_from::<B>(b, old(self).backend)]
                read_from::<B>(b, old(self).backend) && carried_out::<B>(
                    b,
                    plan_for(state@, prev_state@),
                    r,
                    final(self).backend,
                ),
            B::obeys_backend_laws() && !(plan_for(state@, prev_state@) is Unchanged) && r is Ok
                ==> final(self).backend.held() == after_plan::<B>(
                plan_for(state@, prev_state@),
                old(self).backend.installed(),
            ) && final(self).backend.installed() == final(self).backend.held(),
            B::obeys_backend_laws() && r is Ok && old(self).backend.held() == old(
                self,
            ).backend.installed() && old(self).backend.held().to_set() == rules_for(
                prev_state@,
            ).to_set() && tags_hold_ids(|x: RuleView| B::tag(x)) && ids_apart(
                rules_for(prev_state@).to_set() + rules_for(state@).to_set(),
                |x: RuleView| B::tag(x),
            ) ==> final(self).backend.held().to_set() == rules_for(state@).to_set(),
    {
        let ghost b0 = self.backend;
        let count = state.nodes.len();
        let prev_count = prev_state.nodes.len();
        let p = plan(state, prev_state);
        let ghost pv = plan_for(state@, prev_state@);
        let ghost tag = |x: RuleView| B::tag(x);
        let r = match p {
            Plan::Unchanged => Ok(()),
            Plan::ServicesOnly { apply, delete } => {
                self.backend.read_state();
                let ghost b = self.backend;
                let applied = self.backend.apply_rules(apply);
                if applied.is_err() {
                    let r = wrap_backend_result(applied);
                    proof {
                        if B::obeys_backend_laws() {
                            assert(read_from::<B>(b, b0));
                            assert(carried_out::<B>(b, pv, r, self.backend));
                        }
                    }
                    return r;
                }
                let ghost c = self.backend;
                let deleted = self.backend.delete_rules(&delete);
                proof {
                    if B::obeys_backend_laws() {
                        assert(deleted_after_adding::<B>(
                            c,
                            b,
                            views(apply@),
                            delete@,
                            false,
                            deleted,
                            self.backend,
                        ));
                        assert(read_from::<B>(b, b0));
                        assert(carried_out::<B>(b, pv, deleted, self.backend));
                        let keep1 = |x: RuleView| !deletes(delete@, B::tag(x));
                        let keep2 = |x: RuleView| !deletes(delete@, tag(x));
                        assert(keep1 =~= keep2);
                    }
                }
                deleted
            },
            Plan::Full { apply, delete } => {
                self.backend.read_state();
                let ghost b = self.backend;
                let applied = self.backend.apply_rules(apply);
                if applied.is_err() {
                    let r = wrap_backend_result(applied);
                    proof {
                        if B::obeys_backend_laws() {
                            assert(read_from::<B>(b, b0));
                            assert(carried_out::<B>(b, pv, r, self.backend));
                        }
                    }
                    return r;
                }
                let ghost c = self.backend;
                let deleted = self.backend.delete_rules(&delete);
                let r = wrap_backend_result(deleted);
                proof {
                    if B::obeys_backend_laws() {
                        assert(deleted_after_adding::<B>(
                            c,
                            b,
                            views(apply@),
                            delete@,
                            true,
                            r,
                            self.backend,
                        ));
                        assert(read_from::<B>(b, b0));
                        assert(carried_out::<B>(b, pv, r, self.backend));
                        let keep1 = |x: RuleView| !deletes(delete@, B::tag(x));
                        let keep2 = |x: RuleView| !deletes(delete@, tag(x));
                        assert(keep1 =~= keep2);
                    }
                }
                r
            },
        };
        proof {
            if B::obeys_backend_laws() && r is Ok && b0.held() == b0.installed()
                && b0.held().to_set() == rules_for(prev_state@).to_set() && tags_hold_ids(tag)
                && ids_apart(rules_for(prev_state@).to_set() + rules_for(state@).to_set(), tag) {
                lemma_reconcile_syncs(state@, prev_state@, b0.held(), tag);
                if !(pv is Unchanged) {
                    assert(self.backend.held() == run_plan(pv, b0.installed(), tag));
                }
            }
        }
        r
    }

    /// Deletes every rule of the backend, after reading its state. The deletion's answer comes
    /// back wrapped in `OperatorError`; on success the backend holds no rule and none is in
    /// place.
    pub fn cleanup(&mut self) -> (r: Result<(), Error>)
        ensures
            r matches Err(e) ==> e is OperatorError,
            B::obeys_backend_laws() ==> exists|b: B|
                #![trigger read_from::<B>(b, old(self).backend)]
                read_from::<B>(b, old(self).backend) && r == wrapped(
                    b.delete_answer(DeleteFilterView::All),
                ) && (r is Ok ==> final(self).backend.held() == kept::<B>(
                    b.held(),
                    DeleteFilterView::All,
                ) && final(self).backend.installed() == kept::<B>(
                    b.installed(),
                    DeleteFilterView::All,
                )) && (r is Err ==> final(self).backend.held() == b.held()
                    && final(self).backend.installed() == b.installed()),
            B::obeys_backend_laws() && r is Ok ==> final(self).backend.held().len() == 0
                && final(self).backend.installed().len() == 0,
    {
        let ghost b0 = self.backend;
        self.backend.read_state();
        let ghost b = self.backend;
        let deleted = self.backend.delete_rules(&DeleteFilter::All);
        proof {
            if B::obeys_backend_laws() {
                assert(read_from::<B>(b, b0));
                if deleted is Ok {
                    let s = self.backend.held();
                    if s.len() > 0 {
                        assert(s.contains(s[0]));
                    }
                    let t = self.backend.installed();
                    if t.len() > 0 {
                        assert(t.contains(t[0]));
                    }
                }
            }
        }
        wrap_backend_result(deleted)
    }
}

} // verus!
