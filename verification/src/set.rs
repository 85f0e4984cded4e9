use vstd::prelude::*;

use crate::order::Compared;
use crate::ordered::Ordered;

verus! {

/// The views of a sequence of values.
pub open spec fn views<T: View>(s: Seq<T>) -> Seq<T::V> {
    s.map_values(|x: T| x@)
}

/// Each element is smaller than every later one: sorted, with nothing twice.
pub open spec fn strictly_sorted<T: Ordered>(s: Seq<T::V>) -> bool {
    forall|i: int, j: int| 0 <= i < j < s.len() ==> T::order(s[i], s[j]) == Compared::Less
}

/// The laws of `T::order`, stated for all views.
pub proof fn lemma_order_laws<T: Ordered>()
    ensures
        forall|a: T::V, b: T::V| (#[trigger] T::order(a, b) == Compared::Equal) == (a == b),
        forall|a: T::V, b: T::V| #[trigger] T::order(a, b) == T::order(b, a).flip(),
        forall|a: T::V, b: T::V, c: T::V|
            #![trigger T::order(a, b), T::order(b, c)]
            T::order(a, b) == Compared::Less && T::order(b, c) == Compared::Less ==> T::order(a, c)
                == Compared::Less,
{
    assert forall|a: T::V, b: T::V| (#[trigger] T::order(a, b) == Compared::Equal) == (a == b) by {
        T::lemma_order_equal(a, b);
    }
    assert forall|a: T::V, b: T::V| #[trigger] T::order(a, b) == T::order(b, a).flip() by {
        T::lemma_order_flip(a, b);
    }
    assert forall|a: T::V, b: T::V, c: T::V|
        #![trigger T::order(a, b), T::order(b, c)]
        T::order(a, b) == Compared::Less && T::order(b, c) == Compared::Less implies T::order(a, c)
            == Compared::Less by {
        T::lemma_order_trans(a, b, c);
    }
}

/// A set kept as a strictly sorted sequence, as a `BTreeSet` keeps its keys.
#[derive(Clone, Debug)]
pub struct OrderedSet<T> {
    items: Vec<T>,
}

impl<T: Ordered> View for OrderedSet<T> {
    type V = Seq<T::V>;

    closed spec fn view(&self) -> Seq<T::V> {
        views(self.items@)
    }
}

impl<T: Ordered> OrderedSet<T> {
    /// The set is kept sorted without duplicates.
    pub open spec fn wf(&self) -> bool {
        strictly_sorted::<T>(self@)
    }

    /// The empty set.
    pub fn new() -> (r: Self)
        ensures
            r.wf(),
            r@ == Seq::<T::V>::empty(),
    {
        let r = OrderedSet { items: Vec::new() };
        assert(r@ =~= Seq::<T::V>::empty());
        r
    }

    /// The number of elements.
    pub fn len(&self) -> (r: usize)
        ensures
            r == self@.len(),
    {
        self.items.len()
    }

    /// Whether the set has no element.
    pub fn is_empty(&self) -> (r: bool)
        ensures
            r == (self@.len() == 0),
    {
        self.items.len() == 0
    }

    /// The element at position `i` in increasing order.
    pub fn get(&self, i: usize) -> (r: &T)
        requires
            i < self@.len(),
        ensures
            r@ == self@[i as int],
    {
        &self.items[i]
    }

    /// Adds `x` after every element; `x` must be larger than all of them.
    pub fn push_last(&mut self, x: T)
        requires
            old(self).wf(),
            old(self)@.len() > 0 ==> T::order(old(self)@.last(), x@) == Compared::Less,
        ensures
            final(self).wf(),
            final(self)@ == old(self)@.push(x@),
    {
        let ghost old_view = self@;
        proof {
            lemma_order_laws::<T>();
        }
        self.items.push(x);
        assert(self@ =~= old_view.push(x@));
        assert forall|i: int, j: int| 0 <= i < j < self@.len() implies T::order(
            self@[i],
            self@[j],
        ) == Compared::Less by {
            if j == old_view.len() && i < old_view.len() - 1 {
                assert(T::order(old_view[i], old_view.last()) == Compared::Less);
            }
        }
    }

    /// Whether some element has the view of `x`.
    pub fn contains(&self, x: &T) -> (r: bool)
        ensures
            r == self@.contains(x@),
    {
        proof {
            lemma_order_laws::<T>();
        }
        for i in 0..self.items.len()
            invariant
                self.items.len() == self@.len(),
                forall|k: int| 0 <= k < i ==> self@[k] != x@,
        {
            proof {
                lemma_order_laws::<T>();
                assert(self@[i as int] == self.items@[i as int]@);
            }
            if self.items[i].compare(x) == Compared::Equal {
                assert(self@[i as int] == x@);
                return true;
            }
        }
        false
    }

    /// Whether the two sets have the same elements.
    pub fn equals(&self, other: &Self) -> (r: bool)
        ensures
            r == (self@ == other@),
    {
        proof {
            lemma_order_laws::<T>();
        }
        if self.items.len() != other.items.len() {
            return false;
        }
        for i in 0..self.items.len()
            invariant
                self@.len() == other@.len(),
                self.items.len() == self@.len(),
                forall|k: int| 0 <= k < i ==> self@[k] == other@[k],
        {
            proof {
                lemma_order_laws::<T>();
                assert(self@[i as int] == self.items@[i as int]@);
                assert(other@[i as int] == other.items@[i as int]@);
            }
            if self.items[i].compare(&other.items[i]) != Compared::Equal {
                return false;
            }
        }
        assert(self@ =~= other@);
        true
    }

    /// A copy of the set.
    pub fn duplicate(&self) -> (r: Self)
        ensures
            r@ == self@,
    {
        let mut items: Vec<T> = Vec::new();
        for i in 0..self.items.len()
            invariant
                views(items@) == self@.take(i as int),
                self.items.len() == self@.len(),
        {
            let x = self.items[i].duplicate();
            let ghost before = items@;
            items.push(x);
            assert(views(items@) =~= views(before).push(x@));
            assert(self@.take(i + 1) =~= self@.take(i as int).push(self@[i as int]));
        }
        assert(self@.take(self@.len() as int) =~= self@);
        OrderedSet { items }
    }

    /// Adds `x` unless an equal element is there; returns whether it was added.
    pub fn insert(&mut self, x: T) -> (r: bool)
        requires
            old(self).wf(),
        ensures
            final(self).wf(),
            final(self)@.to_set() == old(self)@.to_set().insert(x@),
            r == !old(self)@.contains(x@),
    {
        proof {
            lemma_order_laws::<T>();
        }
        let ghost old_view = self@;
        let mut p: usize = 0;
        while p < self.items.len()
            invariant
                self@ == old_view,
                strictly_sorted::<T>(old_view),
                p <= old_view.len(),
                self.items.len() == old_view.len(),
                forall|k: int| 0 <= k < p ==> T::order(old_view[k], x@) == Compared::Less,
            ensures
                p <= old_view.len(),
                self@ == old_view,
                self.items.len() == old_view.len(),
                forall|k: int| 0 <= k < p ==> T::order(old_view[k], x@) == Compared::Less,
                p < old_view.len() ==> T::order(old_view[p as int], x@) != Compared::Less,
            decreases old_view.len() - p,
        {
            proof {
                assert(old_view[p as int] == self.items@[p as int]@);
            }
            if self.items[p].compare(&x) != Compared::Less {
                break;
            }
            p = p + 1;
        }
        proof {
            if p < old_view.len() {
                assert(old_view[p as int] == self.items@[p as int]@);
            }
        }
        if p < self.items.len() && self.items[p].compare(&x) == Compared::Equal {
            assert(old_view[p as int] == x@);
            assert(old_view.to_set().insert(x@) =~= old_view.to_set());
            return false;
        }
        proof {
            // every element from position p on is larger than x
            assert forall|k: int| p <= k < old_view.len() implies T::order(x@, old_view[k])
                == Compared::Less by {
                assert(T::order(old_view[p as int], x@) == Compared::Greater);
                assert(T::order(x@, old_view[p as int]) == Compared::Less);
                if k > p {
                    assert(T::order(old_view[p as int], old_view[k]) == Compared::Less);
                }
            }
            assert(!old_view.contains(x@)) by {
                if old_view.contains(x@) {
                    let k = choose|k: int| 0 <= k < old_view.len() && old_view[k] == x@;
                    if k < p {
                        assert(T::order(old_view[k], x@) == Compared::Less);
                    } else {
                        assert(T::order(x@, old_view[k]) == Compared::Less);
                    }
                }
            }
        }
        self.items.insert(p, x);
        proof {
            assert(self@ =~= old_view.insert(p as int, x@));
            let n = self@;
            assert forall|i: int, j: int| 0 <= i < j < n.len() implies T::order(n[i], n[j])
                == Compared::Less by {
                if j < p {
                } else if j == p {
                    assert(n[i] == old_view[i]);
                } else if i < p {
                    assert(n[j] == old_view[j - 1]);
                    assert(T::order(old_view[i], x@) == Compared::Less);
                    assert(T::order(x@, old_view[j - 1]) == Compared::Less);
                } else if i == p {
                    assert(n[j] == old_view[j - 1]);
                } else {
                    assert(n[i] == old_view[i - 1]);
                    assert(n[j] == old_view[j - 1]);
                }
            }
            assert forall|v: T::V| n.contains(v) <==> old_view.to_set().insert(x@).contains(v) by {
                if n.contains(v) {
                    let k = choose|k: int| 0 <= k < n.len() && n[k] == v;
                    if k < p {
                        assert(old_view[k] == v);
                    } else if k > p {
                        assert(old_view[k - 1] == v);
                    }
                }
                if old_view.contains(v) {
                    let k = choose|k: int| 0 <= k < old_view.len() && old_view[k] == v;
                    if k < p {
                        assert(n[k] == v);
                    } else {
                        assert(n[k + 1] == v);
                    }
                }
                if v == x@ {
                    assert(n[p as int] == v);
                }
            }
            assert(n.to_set() =~= old_view.to_set().insert(x@));
        }
        true
    }

    /// The elements of `self` that are not in `other`, in order.
    pub fn difference(&self, other: &Self) -> (r: Self)
        requires
            self.wf(),
        ensures
            r.wf(),
            r@ == self@.filter(|v: T::V| !other@.contains(v)),
    {
        let ghost pred = |v: T::V| !other@.contains(v);
        let mut out: OrderedSet<T> = OrderedSet::new();
        for i in 0..self.items.len()
            invariant
                self.wf(),
                self.items.len() == self@.len(),
                pred == (|v: T::V| !other@.contains(v)),
                out.wf(),
                out@ == self@.take(i as int).filter(pred),
                out@.len() > 0 ==> exists|k: int| 0 <= k < i && out@.last() == self@[k],
        {
            let ghost before = out@;
            proof {
                reveal(Seq::filter);
                assert(self@.take(i + 1).drop_last() =~= self@.take(i as int));
            }
            if !other.contains(&self.items[i]) {
                let x = self.items[i].duplicate();
                proof {
                    if before.len() > 0 {
                        let k = choose|k: int| 0 <= k < i && before.last() == self@[k];
                        assert(T::order(self@[k], self@[i as int]) == Compared::Less);
                    }
                }
                out.push_last(x);
            }
        }
        assert(self@.take(self@.len() as int) =~= self@);
        out
    }

    /// The set of the elements of `v`.
    pub fn from_vec(v: Vec<T>) -> (r: Self)
        ensures
            r.wf(),
            r@.to_set() == views(v@).to_set(),
    {
        let mut out: OrderedSet<T> = OrderedSet::new();
        let mut rest = v;
        let ghost all = views(rest@);
        proof {
            assert(all.skip(all.len() as int) =~= Seq::<T::V>::empty());
            assert(out@.to_set() =~= all.skip(all.len() as int).to_set());
            assert(views(rest@) =~= all.take(all.len() as int));
        }
        while rest.len() > 0
            invariant
                rest.len() <= all.len(),
                out.wf(),
                views(rest@) == all.take(rest.len() as int),
                out@.to_set() == all.skip(rest.len() as int).to_set(),
            decreases rest.len(),
        {
            let ghost before = rest@;
            let ghost k = rest.len() - 1;
            let x = rest.pop().unwrap();
            proof {
                assert(views(rest@) =~= views(before).take(k));
                assert(views(before).take(k) =~= all.take(k));
                assert(x@ == views(before)[k]);
                assert(all.take(k + 1)[k] == all[k]);
            }
            out.insert(x);
            proof {
                assert(all.skip(k) =~= seq![all[k]] + all.skip(k + 1));
                assert(all.skip(k).to_set() =~= all.skip(k + 1).to_set().insert(all[k])) by {
                    let s0 = all.skip(k);
                    let s1 = all.skip(k + 1);
                    assert forall|e: T::V| s0.contains(e) <==> s1.to_set().insert(all[k]).contains(e) by {
                        if s0.contains(e) {
                            let j = choose|j: int| 0 <= j < s0.len() && s0[j] == e;
                            if j > 0 {
                                assert(s1[j - 1] == e);
                            }
                        }
                        if s1.contains(e) {
                            let j = choose|j: int| 0 <= j < s1.len() && s1[j] == e;
                            assert(s0[j + 1] == e);
                        }
                        if e == all[k] {
                            assert(s0[0] == e);
                        }
                    }
                }
            }
        }
        assert(all.skip(0) =~= all);
        out
    }
}

/// A strictly sorted sequence is determined by its elements: two with the same set are equal.
pub proof fn lemma_sorted_same_set<T: Ordered>(a: Seq<T::V>, b: Seq<T::V>)
    requires
        strictly_sorted::<T>(a),
        strictly_sorted::<T>(b),
        a.to_set() == b.to_set(),
    ensures
        a == b,
    decreases a.len(),
{
    lemma_order_laws::<T>();
    if a.len() == 0 {
        if b.len() > 0 {
            assert(b.to_set().contains(b[0]));
            assert(!a.to_set().contains(b[0]));
        }
        assert(a =~= b);
    } else {
        assert(a.to_set().contains(a[0]));
        assert(b.to_set().contains(a[0]));
        let k = choose|k: int| 0 <= k < b.len() && b[k] == a[0];
        assert(b.to_set().contains(b[0]));
        assert(a.to_set().contains(b[0]));
        let j = choose|j: int| 0 <= j < a.len() && a[j] == b[0];
        if k > 0 {
            assert(T::order(b[0], b[k]) == Compared::Less);
            if j > 0 {
                assert(T::order(a[0], a[j]) == Compared::Less);
            }
            assert(false);
        }
        let a1 = a.drop_first();
        let b1 = b.drop_first();
        assert forall|x: T::V| a1.to_set().contains(x) <==> b1.to_set().contains(x) by {
            if a1.to_set().contains(x) {
                let i = choose|i: int| 0 <= i < a1.len() && a1[i] == x;
                assert(a[i + 1] == x);
                assert(T::order(a[0], a[i + 1]) == Compared::Less);
                assert(b.to_set().contains(x));
                let m = choose|m: int| 0 <= m < b.len() && b[m] == x;
                assert(m != 0);
                assert(b1[m - 1] == x);
            }
            if b1.to_set().contains(x) {
                let i = choose|i: int| 0 <= i < b1.len() && b1[i] == x;
                assert(b[i + 1] == x);
                assert(T::order(b[0], b[i + 1]) == Compared::Less);
                assert(a.to_set().contains(x));
                let m = choose|m: int| 0 <= m < a.len() && a[m] == x;
                assert(m != 0);
                assert(a1[m - 1] == x);
            }
        }
        assert(a1.to_set() =~= b1.to_set());
        lemma_sorted_same_set::<T>(a1, b1);
        assert(a =~= b) by {
            assert forall|i: int| 0 <= i < a.len() implies a[i] == b[i] by {
                if i > 0 {
                    assert(a[i] == a1[i - 1]);
                    assert(b[i] == b1[i - 1]);
                }
            }
        }
    }
}

} // verus!
