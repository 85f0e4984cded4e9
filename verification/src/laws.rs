use vstd::prelude::*;

use crate::cli::{interface_list, split_commas};
use crate::operator::{
    rule_key, service_key, service_id_text, short_hash, ports_text, run_plan, deletes, holds_any, rule_id_of, service_id_of, DeleteFilterView, interface_rules, node_rules, plan_for, rule_for, rules_for, service_rules, PlanView, RuleView,
};
use crate::ordered::Ordered;
use crate::res::{fqn_of, Interface, InterfaceView, Node, NodeView, Service, ServiceView};
use crate::set::{lemma_sorted_same_set, strictly_sorted};
use crate::text::{bool_text, contains_text, decimal, double_colon};
use crate::state::{
    apply_op, apply_ops, contents, node_event_ops, restarted_node_ops, restarted_service_ops, seq_minus, service_event_ops, Contents, Event,
    OpView, StateView,
};

verus! {

proof fn lemma_minus_contains<A>(a: Seq<A>, b: Seq<A>, x: A)
    ensures
        seq_minus(a, b).contains(x) == (a.contains(x) && !b.contains(x)),
{
    let p = |v: A| !b.contains(v);
    if seq_minus(a, b).contains(x) {
        a.lemma_filter_contains_rev(p, x);
        let k = choose|k: int| 0 <= k < a.filter(p).len() && a.filter(p)[k] == x;
        a.lemma_filter_pred(p, k);
    }
    if a.contains(x) && !b.contains(x) {
        let k = choose|k: int| 0 <= k < a.len() && a[k] == x;
        a.lemma_filter_contains(p, k);
    }
}

/// What `diff` reports undoes the change: the previous elements without the removed ones,
/// together with the added ones, are the current elements.
pub proof fn lemma_diff_restores<A>(current: Seq<A>, previous: Seq<A>)
    ensures
        seq_minus(previous, seq_minus(previous, current)).to_set() + seq_minus(
            current,
            previous,
        ).to_set() == current.to_set(),
        seq_minus(current, previous).to_set().disjoint(previous.to_set()),
{
    let removed = seq_minus(previous, current);
    let added = seq_minus(current, previous);
    assert forall|x: A|
        (seq_minus(previous, removed).to_set() + added.to_set()).contains(x)
            == current.to_set().contains(x) by {
        lemma_minus_contains(previous, removed, x);
        lemma_minus_contains(previous, current, x);
        lemma_minus_contains(current, previous, x);
    }
    assert(seq_minus(previous, removed).to_set() + added.to_set() =~= current.to_set());
    assert forall|x: A| added.to_set().contains(x) implies !previous.to_set().contains(x) by {
        lemma_minus_contains(current, previous, x);
    }
}

/// Applying an operation twice does what applying it once does.
pub proof fn lemma_apply_op_idempotent(op: OpView, c: Contents)
    ensures
        apply_op(op, apply_op(op, c)) == apply_op(op, c),
{
    let once = apply_op(op, c);
    let twice = apply_op(op, once);
    match op {
        OpView::NodeAdd(n) => {
            assert(twice.nodes =~= once.nodes);
        },
        OpView::NodeRemove(name) => {
            assert(twice.nodes =~= once.nodes);
        },
        OpView::ServiceAdd(s) => {
            assert(twice.services =~= once.services);
        },
        OpView::ServiceRemove(f) => {
            assert(twice.services =~= once.services);
        },
    }
}

/// An applied service replaces every service of its fully qualified name: afterwards it is
/// the only one of that name when it asks for an external port, and none is left otherwise;
/// nodes are kept.
pub proof fn lemma_applied_service_replaces(svc: Service, c: Contents)
    ensures
        ({
            let after = apply_ops(service_event_ops(Event::Applied(Some(svc))), c);
            let others = c.services.filter(|v: ServiceView| fqn_of(v) != fqn_of(svc@));
            &&& after.nodes == c.nodes
            &&& svc@.ports.len() > 0 ==> after.services == others.insert(svc@)
            &&& svc@.ports.len() == 0 ==> after.services == others
        }),
{
    let ops = service_event_ops(Event::Applied(Some(svc)));
    let rm = seq![OpView::ServiceRemove(fqn_of(svc@))];
    assert(rm.drop_last() =~= Seq::<OpView>::empty());
    assert(apply_ops(rm.drop_last(), c) == c);
    let removed = apply_ops(rm, c);
    assert(removed == apply_op(OpView::ServiceRemove(fqn_of(svc@)), c));
    assert(removed.services =~= c.services.filter(|v: ServiceView| fqn_of(v) != fqn_of(svc@)));
    if svc@.ports.len() > 0 {
        assert(ops.drop_last() =~= rm);
        assert(ops.last() == OpView::ServiceAdd(svc@));
    } else {
        assert(ops =~= rm);
    }
}

/// A deleted service leaves no service of its fully qualified name; nodes are kept.
pub proof fn lemma_deleted_service_removes(svc: Service, c: Contents)
    ensures
        ({
            let after = apply_ops(service_event_ops(Event::Deleted(Some(svc))), c);
            &&& after.nodes == c.nodes
            &&& after.services == c.services.filter(|v: ServiceView| fqn_of(v) != fqn_of(svc@))
            &&& forall|v: ServiceView| after.services.contains(v) ==> fqn_of(v) != fqn_of(svc@)
        }),
{
    let ops = service_event_ops(Event::Deleted(Some(svc)));
    assert(ops.drop_last() =~= Seq::<OpView>::empty());
    assert(apply_ops(ops.drop_last(), c) == c);
    let after = apply_ops(ops, c);
    assert(after == apply_op(OpView::ServiceRemove(fqn_of(svc@)), c));
    assert(after.services =~= c.services.filter(|v: ServiceView| fqn_of(v) != fqn_of(svc@)));
}

/// An applied node replaces every node of its name: afterwards it is the only one of that
/// name when it is active, and none is left otherwise; services are kept.
pub proof fn lemma_applied_node_replaces(node: Node, c: Contents)
    ensures
        ({
            let after = apply_ops(node_event_ops(Event::Applied(Some(node))), c);
            let others = c.nodes.filter(|v: crate::res::NodeView| v.name != node@.name);
            &&& after.services == c.services
            &&& node@.is_active ==> after.nodes == others.insert(node@)
            &&& !node@.is_active ==> after.nodes == others
        }),
{
    let ops = node_event_ops(Event::Applied(Some(node)));
    let rm = seq![OpView::NodeRemove(node@.name)];
    assert(rm.drop_last() =~= Seq::<OpView>::empty());
    assert(apply_ops(rm.drop_last(), c) == c);
    let removed = apply_ops(rm, c);
    assert(removed == apply_op(OpView::NodeRemove(node@.name), c));
    assert(removed.nodes =~= c.nodes.filter(|v: crate::res::NodeView| v.name != node@.name));
    if node@.is_active {
        assert(ops.drop_last() =~= rm);
        assert(ops.last() == OpView::NodeAdd(node@));
    } else {
        assert(ops =~= rm);
    }
}

/// A deleted node leaves no node of its name; services are kept.
pub proof fn lemma_deleted_node_removes(node: Node, c: Contents)
    ensures
        ({
            let after = apply_ops(node_event_ops(Event::Deleted(Some(node))), c);
            &&& after.services == c.services
            &&& after.nodes == c.nodes.filter(|v: crate::res::NodeView| v.name != node@.name)
        }),
{
    let ops = node_event_ops(Event::Deleted(Some(node)));
    assert(ops.drop_last() =~= Seq::<OpView>::empty());
    assert(apply_ops(ops.drop_last(), c) == c);
    let after = apply_ops(ops, c);
    assert(after == apply_op(OpView::NodeRemove(node@.name), c));
    assert(after.nodes =~= c.nodes.filter(|v: crate::res::NodeView| v.name != node@.name));
}

/// The states are valid: the services and the nodes are strictly sorted.
pub open spec fn valid_view(s: StateView) -> bool {
    &&& strictly_sorted::<Service>(s.services)
    &&& strictly_sorted::<Node>(s.nodes)
}

proof fn lemma_no_difference_same_set<A>(a: Seq<A>, b: Seq<A>)
    ensures
        (seq_minus(a, b).len() == 0 && seq_minus(b, a).len() == 0) == (a.to_set() == b.to_set()),
{
    assert forall|x: A| #[trigger] a.contains(x) ==> !seq_minus(a, b).contains(x) || !b.contains(x) by {
        lemma_minus_contains(a, b, x);
    }
    if seq_minus(a, b).len() == 0 && seq_minus(b, a).len() == 0 {
        assert forall|x: A| a.to_set().contains(x) <==> b.to_set().contains(x) by {
            lemma_minus_contains(a, b, x);
            lemma_minus_contains(b, a, x);
            if a.contains(x) && !b.contains(x) {
                assert(seq_minus(a, b).contains(x));
            }
            if b.contains(x) && !a.contains(x) {
                assert(seq_minus(b, a).contains(x));
            }
        }
        assert(a.to_set() =~= b.to_set());
    }
    if a.to_set() == b.to_set() {
        if seq_minus(a, b).len() > 0 {
            let x = seq_minus(a, b)[0];
            assert(seq_minus(a, b).contains(x));
            lemma_minus_contains(a, b, x);
            assert(a.to_set().contains(x));
        }
        if seq_minus(b, a).len() > 0 {
            let x = seq_minus(b, a)[0];
            assert(seq_minus(b, a).contains(x));
            lemma_minus_contains(b, a, x);
            assert(b.to_set().contains(x));
        }
    }
}

/// `diff` reports nothing added and nothing removed exactly when the services and the nodes
/// are the same; what it reports added and what removed have nothing in common.
pub proof fn lemma_diff_empty_iff_same(st: StateView, prev: StateView)
    requires
        valid_view(st),
        valid_view(prev),
    ensures
        (seq_minus(st.services, prev.services).len() == 0 && seq_minus(st.nodes, prev.nodes).len()
            == 0 && seq_minus(prev.services, st.services).len() == 0 && seq_minus(
            prev.nodes,
            st.nodes,
        ).len() == 0) == (st.services == prev.services && st.nodes == prev.nodes),
        seq_minus(st.services, prev.services).to_set().disjoint(
            seq_minus(prev.services, st.services).to_set(),
        ),
        seq_minus(st.nodes, prev.nodes).to_set().disjoint(
            seq_minus(prev.nodes, st.nodes).to_set(),
        ),
{
    lemma_no_difference_same_set(st.services, prev.services);
    lemma_no_difference_same_set(st.nodes, prev.nodes);
    if st.services.to_set() == prev.services.to_set() {
        lemma_sorted_same_set::<Service>(st.services, prev.services);
    }
    if st.nodes.to_set() == prev.nodes.to_set() {
        lemma_sorted_same_set::<Node>(st.nodes, prev.nodes);
    }
    assert forall|x: ServiceView|
        seq_minus(st.services, prev.services).to_set().contains(x) implies !seq_minus(
            prev.services,
            st.services,
        ).to_set().contains(x) by {
        lemma_minus_contains(st.services, prev.services, x);
        lemma_minus_contains(prev.services, st.services, x);
    }
    assert forall|x: NodeView|
        seq_minus(st.nodes, prev.nodes).to_set().contains(x) implies !seq_minus(
            prev.nodes,
            st.nodes,
        ).to_set().contains(x) by {
        lemma_minus_contains(st.nodes, prev.nodes, x);
        lemma_minus_contains(prev.nodes, st.nodes, x);
    }
}

/// Reconciling hands the backend nothing exactly when the two states have the same services,
/// the same nodes and the same interfaces (in any order, repeats aside).
pub proof fn lemma_unchanged_iff_same(st: StateView, prev: StateView)
    requires
        valid_view(st),
        valid_view(prev),
    ensures
        (plan_for(st, prev) is Unchanged) == (st.services == prev.services && st.nodes
            == prev.nodes && st.interfaces.to_set() == prev.interfaces.to_set()),
{
    lemma_no_difference_same_set(st.interfaces, prev.interfaces);
    lemma_no_difference_same_set(st.services, prev.services);
    lemma_no_difference_same_set(st.nodes, prev.nodes);
    if st.services.to_set() == prev.services.to_set() {
        lemma_sorted_same_set::<Service>(st.services, prev.services);
    }
    if st.nodes.to_set() == prev.nodes.to_set() {
        lemma_sorted_same_set::<Node>(st.nodes, prev.nodes);
    }
}

proof fn lemma_concat_contains<A>(a: Seq<A>, b: Seq<A>, x: A)
    ensures
        (a + b).contains(x) == (a.contains(x) || b.contains(x)),
{
    if (a + b).contains(x) {
        let k = choose|k: int| 0 <= k < (a + b).len() && (a + b)[k] == x;
        if k < a.len() {
            assert(a[k] == x);
        } else {
            assert(b[k - a.len()] == x);
        }
    }
    if a.contains(x) {
        let k = choose|k: int| 0 <= k < a.len() && a[k] == x;
        assert((a + b)[k] == x);
    }
    if b.contains(x) {
        let k = choose|k: int| 0 <= k < b.len() && b[k] == x;
        assert((a + b)[k + a.len()] == x);
    }
}

/// `r` is a rule of the state: its node is the `node_index`-th of the nodes, its service and
/// interface are the state's, and it does not pair an internal service with an external
/// interface.
pub open spec fn is_rule_of(st: StateView, r: RuleView) -> bool {
    &&& r.node_index < st.nodes.len()
    &&& r.num_nodes == st.nodes.len()
    &&& r.node == st.nodes[r.node_index as int]
    &&& st.services.contains(r.service)
    &&& st.interfaces.contains(r.interface)
    &&& !(r.interface.is_external && r.service.is_internal)
}

proof fn lemma_interface_rules_members(
    node: NodeView,
    index: usize,
    count: usize,
    svc: ServiceView,
    ifaces: Seq<InterfaceView>,
    r: RuleView,
)
    ensures
        interface_rules(node, index, count, svc, ifaces).contains(r) == (r.node == node
            && r.node_index == index && r.num_nodes == count && r.service == svc
            && ifaces.contains(r.interface) && !(r.interface.is_external && svc.is_internal)),
    decreases ifaces.len(),
{
    if ifaces.len() > 0 {
        let rest = ifaces.drop_last();
        lemma_interface_rules_members(node, index, count, svc, rest, r);
        lemma_concat_contains(
            interface_rules(node, index, count, svc, rest),
            rule_for(node, index, count, svc, ifaces.last()),
            r,
        );
        lemma_concat_contains(rest, seq![ifaces.last()], r.interface);
        assert(ifaces =~= rest + seq![ifaces.last()]);
        let one = rule_for(node, index, count, svc, ifaces.last());
        if one.contains(r) {
            assert(one.len() == 1 && one[0] == r);
        }
        if !(ifaces.last().is_external && svc.is_internal) {
            assert(one[0] == RuleView {
                node,
                service: svc,
                interface: ifaces.last(),
                num_nodes: count,
                node_index: index,
            });
        }
        assert(seq![ifaces.last()].contains(r.interface) == (r.interface == ifaces.last())) by {
            if r.interface == ifaces.last() {
                assert(seq![ifaces.last()][0] == r.interface);
            }
        }
    }
}

proof fn lemma_service_rules_members(
    node: NodeView,
    index: usize,
    count: usize,
    svcs: Seq<ServiceView>,
    ifaces: Seq<InterfaceView>,
    r: RuleView,
)
    ensures
        service_rules(node, index, count, svcs, ifaces).contains(r) == (r.node == node
            && r.node_index == index && r.num_nodes == count && svcs.contains(r.service)
            && ifaces.contains(r.interface) && !(r.interface.is_external
            && r.service.is_internal)),
    decreases svcs.len(),
{
    if svcs.len() > 0 {
        let rest = svcs.drop_last();
        lemma_service_rules_members(node, index, count, rest, ifaces, r);
        lemma_interface_rules_members(node, index, count, svcs.last(), ifaces, r);
        lemma_concat_contains(
            service_rules(node, index, count, rest, ifaces),
            interface_rules(node, index, count, svcs.last(), ifaces),
            r,
        );
        lemma_concat_contains(rest, seq![svcs.last()], r.service);
        assert(svcs =~= rest + seq![svcs.last()]);
        assert(seq![svcs.last()].contains(r.service) == (r.service == svcs.last())) by {
            if r.service == svcs.last() {
                assert(seq![svcs.last()][0] == r.service);
            }
        }
    }
}

proof fn lemma_node_rules_members(
    nodes: Seq<NodeView>,
    count: usize,
    svcs: Seq<ServiceView>,
    ifaces: Seq<InterfaceView>,
    r: RuleView,
)
    requires
        nodes.len() <= usize::MAX,
    ensures
        node_rules(nodes, count, svcs, ifaces).contains(r) == (r.node_index < nodes.len()
            && r.node == nodes[r.node_index as int] && r.num_nodes == count && svcs.contains(
            r.service,
        ) && ifaces.contains(r.interface) && !(r.interface.is_external
            && r.service.is_internal)),
    decreases nodes.len(),
{
    if nodes.len() > 0 {
        let rest = nodes.drop_last();
        let last = (nodes.len() - 1) as usize;
        lemma_node_rules_members(rest, count, svcs, ifaces, r);
        lemma_service_rules_members(nodes.last(), last, count, svcs, ifaces, r);
        lemma_concat_contains(
            node_rules(rest, count, svcs, ifaces),
            service_rules(nodes.last(), last, count, svcs, ifaces),
            r,
        );
        if r.node_index < rest.len() {
            assert(rest[r.node_index as int] == nodes[r.node_index as int]);
        }
    }
}

/// The rules of a state are exactly its rules: one for each node (with its position and the
/// number of nodes), each service and each interface, except that an internal service gets
/// none on an external interface.
pub proof fn lemma_rules_members(st: StateView, r: RuleView)
    requires
        st.nodes.len() <= usize::MAX,
    ensures
        rules_for(st).contains(r) == is_rule_of(st, r),
{
    lemma_node_rules_members(st.nodes, st.nodes.len() as usize, st.services, st.interfaces, r);
}

/// Each rule's text holds its rule id and the id of its service.
pub open spec fn tags_hold_ids(tag: spec_fn(RuleView) -> Seq<char>) -> bool {
    forall|r: RuleView|
        #![trigger tag(r)]
        contains_text(tag(r), rule_id_of(r)) && contains_text(tag(r), service_id_of(r.service))
}

/// Among `rules`, no rule's text holds the rule id of another rule, nor the id of another
/// service.
pub open spec fn ids_apart(rules: Set<RuleView>, tag: spec_fn(RuleView) -> Seq<char>) -> bool {
    &&& forall|r: RuleView, q: RuleView|
        #![trigger rules.contains(r), rules.contains(q)]
        rules.contains(r) && rules.contains(q) && r != q ==> !contains_text(tag(r), rule_id_of(q))
    &&& forall|r: RuleView, q: RuleView|
        #![trigger rules.contains(r), rules.contains(q)]
        rules.contains(r) && rules.contains(q) && r.service != q.service ==> !contains_text(
            tag(r),
            service_id_of(q.service),
        )
}

proof fn lemma_filter_contains_iff<A>(s: Seq<A>, p: spec_fn(A) -> bool, x: A)
    ensures
        s.filter(p).contains(x) == (s.contains(x) && p(x)),
{
    if s.filter(p).contains(x) {
        s.lemma_filter_contains_rev(p, x);
        let k = choose|k: int| 0 <= k < s.filter(p).len() && s.filter(p)[k] == x;
        s.lemma_filter_pred(p, k);
    }
    if s.contains(x) && p(x) {
        let k = choose|k: int| 0 <= k < s.len() && s[k] == x;
        s.lemma_filter_contains(p, k);
    }
}

/// Reconciling keeps the backend in step with the cluster: if the backend holds the rules of
/// the previous state, then after it has carried out what reconciling hands it, it holds the
/// rules of the current state. This holds where every rule's text holds its ids and no rule
/// of either state has the id of another rule or service in its text.
pub proof fn lemma_reconcile_syncs(
    st: StateView,
    prev: StateView,
    store: Seq<RuleView>,
    tag: spec_fn(RuleView) -> Seq<char>,
)
    requires
        valid_view(st),
        valid_view(prev),
        st.nodes.len() <= usize::MAX,
        prev.nodes.len() <= usize::MAX,
        store.to_set() == rules_for(prev).to_set(),
        tags_hold_ids(tag),
        ids_apart(rules_for(prev).to_set() + rules_for(st).to_set(), tag),
    ensures
        run_plan(plan_for(st, prev), store, tag).to_set() == rules_for(st).to_set(),
{
    let u = rules_for(prev).to_set() + rules_for(st).to_set();
    let p = plan_for(st, prev);
    let result = run_plan(p, store, tag);
    lemma_unchanged_iff_same(st, prev);
    match p {
        PlanView::Unchanged => {
            assert forall|x: RuleView| rules_for(st).to_set().contains(x) == rules_for(
                prev,
            ).to_set().contains(x) by {
                lemma_rules_members(st, x);
                lemma_rules_members(prev, x);
                assert(st.interfaces.to_set().contains(x.interface) == st.interfaces.contains(
                    x.interface,
                ));
                assert(prev.interfaces.to_set().contains(x.interface) == prev.interfaces.contains(
                    x.interface,
                ));
            }
            assert(rules_for(st).to_set() =~= rules_for(prev).to_set());
        },
        PlanView::ServicesOnly { apply, delete } => {
            let added_s = seq_minus(st.services, prev.services);
            let removed_s = seq_minus(prev.services, st.services);
            let a = StateView { services: added_s, ..st };
            let rv = StateView { services: removed_s, ..st };
            let gone = rules_for(rv);
            let ids = gone.map_values(|r: RuleView| service_id_of(r.service));
            assert(apply == rules_for(a));
            assert(delete == DeleteFilterView::ContainingAny(ids));
            let keep = |r: RuleView| !deletes(delete, tag(r));
            assert forall|x: RuleView| result.to_set().contains(x) == rules_for(
                st,
            ).to_set().contains(x) by {
                lemma_filter_contains_iff(store + apply, keep, x);
                lemma_concat_contains(store, apply, x);
                lemma_rules_members(st, x);
                lemma_rules_members(prev, x);
                lemma_rules_members(a, x);
                lemma_rules_members(rv, x);
                lemma_minus_contains(st.services, prev.services, x.service);
                lemma_minus_contains(prev.services, st.services, x.service);
                assert(store.to_set().contains(x) == store.contains(x));
                if rules_for(st).contains(x) {
                    // the text of x holds no id of a removed service
                    if holds_any(tag(x), ids) {
                        let i = choose|i: int|
                            0 <= i < ids.len() && #[trigger] contains_text(tag(x), ids[i]);
                        let q = gone[i];
                        assert(gone.contains(q));
                        lemma_rules_members(rv, q);
                        lemma_rules_members(prev, q);
                        lemma_minus_contains(prev.services, st.services, q.service);
                        assert(u.contains(q));
                        assert(u.contains(x));
                        assert(ids[i] == service_id_of(q.service));
                    }
                }
                if result.contains(x) && !rules_for(st).contains(x) {
                    // x is an old rule of a removed service, whose id its text holds
                    assert(gone.contains(x));
                    let i = choose|i: int| 0 <= i < gone.len() && gone[i] == x;
                    assert(ids[i] == service_id_of(x.service));
                    assert(contains_text(tag(x), service_id_of(x.service)));
                    assert(contains_text(tag(x), ids[i]));
                }
            }
            assert(result.to_set() =~= rules_for(st).to_set());
        },
        PlanView::Full { apply, delete } => {
            let ids = rules_for(st).map_values(|r: RuleView| rule_id_of(r));
            assert(apply == rules_for(st));
            assert(delete == DeleteFilterView::ContainingNone(ids));
            let keep = |r: RuleView| !deletes(delete, tag(r));
            assert forall|x: RuleView| result.to_set().contains(x) == rules_for(
                st,
            ).to_set().contains(x) by {
                lemma_filter_contains_iff(store + apply, keep, x);
                lemma_concat_contains(store, apply, x);
                assert(store.to_set().contains(x) == store.contains(x));
                if rules_for(st).contains(x) {
                    let i = choose|i: int| 0 <= i < rules_for(st).len() && rules_for(st)[i] == x;
                    assert(ids[i] == rule_id_of(x));
                    assert(contains_text(tag(x), rule_id_of(x)));
                    assert(contains_text(tag(x), ids[i]));
                }
                if result.contains(x) && !rules_for(st).contains(x) {
                    assert(holds_any(tag(x), ids));
                    let i = choose|i: int|
                        0 <= i < ids.len() && #[trigger] contains_text(tag(x), ids[i]);
                    let q = rules_for(st)[i];
                    assert(rules_for(st).contains(q));
                    assert(u.contains(q));
                    assert(u.contains(x));
                    assert(ids[i] == rule_id_of(q));
                }
            }
            assert(result.to_set() =~= rules_for(st).to_set());
        },
    }
}

/// The text hashed into a service id ends with the service's allowed range whenever it has
/// one, internal or not.
pub proof fn lemma_service_key_ends_with_range(fqn_hash: Seq<char>, s: ServiceView)
    ensures
        s.allow_range is Some ==> ({
            let t = service_key(fqn_hash, s);
            let r = s.allow_range->0;
            r.len() <= t.len() && t.subrange(t.len() - r.len(), t.len() as int) == r
        }),
{
    if s.allow_range is Some {
        let r = s.allow_range->0;
        let x = fqn_hash + ports_text(s.ports) + bool_text(s.is_internal);
        let t = service_key(fqn_hash, s);
        assert(t =~= x + r);
        assert(t.subrange(t.len() - r.len(), t.len() as int) =~= r);
    }
}

/// Services that differ only in their allowed ranges get different service ids texts, and so
/// (but for a collision of digests) different service ids.
pub proof fn lemma_service_id_text_tells_ranges(a: ServiceView, b: ServiceView)
    requires
        a.name == b.name,
        a.namespace == b.namespace,
        a.ports == b.ports,
        a.is_internal == b.is_internal,
        a.allow_range is Some,
        b.allow_range is Some,
        a.allow_range != b.allow_range,
    ensures
        service_id_text(a) != service_id_text(b),
{
    let h = short_hash(fqn_of(a));
    assert(fqn_of(a) == fqn_of(b));
    let x = h + ports_text(a.ports) + bool_text(a.is_internal);
    let ra = a.allow_range->0;
    let rb = b.allow_range->0;
    assert(service_id_text(a) =~= x + ra);
    assert(service_id_text(b) =~= x + rb);
    if service_id_text(a) == service_id_text(b) {
        assert((x + ra).subrange(x.len() as int, (x + ra).len() as int) =~= ra);
        assert((x + rb).subrange(x.len() as int, (x + rb).len() as int) =~= rb);
        assert(ra == rb);
    }
}

/// The text hashed into a rule id starts with the service id, `::`, the node's address and
/// `::`, whatever the number of nodes.
pub proof fn lemma_rule_key_starts_with_address(sid: Seq<char>, r: RuleView)
    ensures
        ({
            let head = sid + double_colon() + r.node.addr + double_colon();
            let t = rule_key(sid, r);
            head.len() <= t.len() && t.subrange(0, head.len() as int) == head
        }),
{
    let head = sid + double_colon() + r.node.addr + double_colon();
    let rest = decimal(r.num_nodes as nat) + double_colon() + decimal(r.node_index as nat)
        + double_colon() + r.interface.name + double_colon() + bool_text(r.interface.is_external);
    let t = rule_key(sid, r);
    assert(t =~= head + rest);
    assert(t.subrange(0, head.len() as int) =~= head);
}

/// Rules that differ only in the address of their node get different rule id texts, and so
/// (but for a collision of digests) different rule ids, whatever the number of nodes.
pub proof fn lemma_rule_key_tells_addresses(sid: Seq<char>, a: RuleView, b: RuleView)
    requires
        a.num_nodes == b.num_nodes,
        a.node_index == b.node_index,
        a.interface == b.interface,
        a.node.addr != b.node.addr,
    ensures
        rule_key(sid, a) != rule_key(sid, b),
{
    let x = sid + double_colon();
    let rest = double_colon() + decimal(a.num_nodes as nat) + double_colon() + decimal(
        a.node_index as nat,
    ) + double_colon() + a.interface.name + double_colon() + bool_text(a.interface.is_external);
    assert(rule_key(sid, a) =~= x + a.node.addr + rest);
    assert(rule_key(sid, b) =~= x + b.node.addr + rest);
    if rule_key(sid, a) == rule_key(sid, b) {
        assert(a.node.addr.len() == b.node.addr.len());
        let ta = x + a.node.addr + rest;
        let tb = x + b.node.addr + rest;
        assert(ta.subrange(x.len() as int, x.len() as int + a.node.addr.len()) =~= a.node.addr);
        assert(tb.subrange(x.len() as int, x.len() as int + b.node.addr.len()) =~= b.node.addr);
    }
}

/// A restart of services stands for one addition of each readable service that asks for an
/// external port, in order, and nothing else.
pub proof fn lemma_restarted_services_added(objs: Seq<Option<ServiceView>>)
    ensures
        restarted_service_ops(objs) == objs.filter(
            |o: Option<ServiceView>| o is Some && o->0.ports.len() > 0,
        ).map_values(|o: Option<ServiceView>| OpView::ServiceAdd(o->0)),
    decreases objs.len(),
{
    let p = |o: Option<ServiceView>| o is Some && o->0.ports.len() > 0;
    let f = |o: Option<ServiceView>| OpView::ServiceAdd(o->0);
    reveal(Seq::filter);
    if objs.len() == 0 {
        assert(objs.filter(p).map_values(f) =~= Seq::<OpView>::empty());
    } else {
        lemma_restarted_services_added(objs.drop_last());
        let prev = objs.drop_last().filter(p);
        if p(objs.last()) {
            assert(objs.filter(p) == prev.push(objs.last()));
            assert(prev.push(objs.last()).map_values(f) =~= prev.map_values(f).push(
                f(objs.last()),
            ));
        } else {
            assert(objs.filter(p) == prev);
        }
    }
}

/// A restart of nodes stands for one addition of each readable active node, in order, and
/// nothing else.
pub proof fn lemma_restarted_nodes_added(objs: Seq<Option<NodeView>>)
    ensures
        restarted_node_ops(objs) == objs.filter(
            |o: Option<NodeView>| o is Some && o->0.is_active,
        ).map_values(|o: Option<NodeView>| OpView::NodeAdd(o->0)),
    decreases objs.len(),
{
    let p = |o: Option<NodeView>| o is Some && o->0.is_active;
    let f = |o: Option<NodeView>| OpView::NodeAdd(o->0);
    reveal(Seq::filter);
    if objs.len() == 0 {
        assert(objs.filter(p).map_values(f) =~= Seq::<OpView>::empty());
    } else {
        lemma_restarted_nodes_added(objs.drop_last());
        let prev = objs.drop_last().filter(p);
        if p(objs.last()) {
            assert(objs.filter(p) == prev.push(objs.last()));
            assert(prev.push(objs.last()).map_values(f) =~= prev.map_values(f).push(
                f(objs.last()),
            ));
        } else {
            assert(objs.filter(p) == prev);
        }
    }
}

/// The interface list has one interface for each comma-separated piece, named by it and in
/// its order, external exactly when the piece is the external interface (so none is external
/// when there is no external interface), then `lo`, internal, where asked for.
pub proof fn lemma_interface_list_marks(
    list: Seq<char>,
    external: Option<Seq<char>>,
    with_loopback: bool,
)
    ensures
        ({
            let pieces = split_commas(list);
            let r = interface_list(list, external, with_loopback);
            &&& r.len() == pieces.len() + (if with_loopback {
                1int
            } else {
                0int
            })
            &&& forall|i: int|
                0 <= i < pieces.len() ==> (#[trigger] r[i]).name == pieces[i] && r[i].is_external
                    == (external == Some(pieces[i]))
            &&& external is None ==> forall|i: int| 0 <= i < pieces.len() ==> !(#[trigger] r[i]).is_external
            &&& with_loopback ==> r[r.len() - 1] == InterfaceView {
                name: seq!['l', 'o'],
                is_external: false,
            }
        }),
{
}

} // verus!
