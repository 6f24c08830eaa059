//! Values filed under subjects (paths of names), with lookups of a subject,
//! of every subject along a path, and of every subject below a prefix.

use vstd::prelude::*;

use crate::types::Subject;

verus! {

/// A subject and the value filed under it.
#[derive(Debug)]
pub struct SubjectTreeNode<T> {
    subject: Subject,
    value: T,
}

impl<T> SubjectTreeNode<T> {
    pub closed spec fn path(&self) -> Seq<Seq<char>> {
        self.subject@
    }

    pub closed spec fn held(&self) -> T {
        self.value
    }

    pub fn new(subject: Subject, value: T) -> (r: Self)
        ensures
            r.path() == subject@,
            r.held() == value,
    {
        SubjectTreeNode { subject, value }
    }

    pub fn subject(&self) -> (r: &Subject)
        ensures
            r@ == self.path(),
    {
        &self.subject
    }

    pub fn value(&self) -> (r: &T)
        ensures
            *r == self.held(),
    {
        &self.value
    }
}

impl<TT> SubjectTreeNode<Vec<TT>> {
    /// Adds the values of this node to `result`, in order.
    pub fn gather<'a>(&'a self, result: &mut Vec<&'a TT>)
        ensures
            final(result)@.map_values(|x: &TT| *x) == old(result)@.map_values(|x: &TT| *x) + self.held()@,
    {
        let ghost before = result@;
        let vals = &self.value;
        let mut j: usize = 0;
        while j < vals.len()
            invariant
                0 <= j <= vals@.len(),
                result@.map_values(|x: &TT| *x) == before.map_values(|x: &TT| *x) + vals@.subrange(0, j as int),
            decreases vals@.len() - j,
        {
            let ghost mid = result@;
            result.push(&vals[j]);
            assert(result@.map_values(|x: &TT| *x) =~= mid.map_values(|x: &TT| *x).push(vals@[j as int]));
            assert(vals@.subrange(0, j + 1) =~= vals@.subrange(0, j as int).push(vals@[j as int]));
            j = j + 1;
        }
        assert(vals@.subrange(0, vals@.len() as int) =~= vals@);
    }
}

impl<TT> SubjectTreeNode<Option<TT>> {
    /// Adds the subject and value of this node to `result` when it holds a
    /// value.
    pub fn gather_with_subject<'a>(&'a self, result: &mut Vec<(Subject, &'a TT)>)
        ensures
            final(result)@.map_values(|x: (Subject, &TT)| (x.0@, *x.1)) == match self.held() {
                Some(v) => old(result)@.map_values(|x: (Subject, &TT)| (x.0@, *x.1)).push((self.path(), v)),
                None => old(result)@.map_values(|x: (Subject, &TT)| (x.0@, *x.1)),
            },
    {
        let ghost before = result@;
        match &self.value {
            Some(v) => {
                result.push((self.subject.copy(), v));
                assert(result@.map_values(|x: (Subject, &TT)| (x.0@, *x.1)) =~= before.map_values(
                    |x: (Subject, &TT)| (x.0@, *x.1),
                ).push((self.path(), *v)));
            },
            None => {},
        }
    }
}

/// Whether `p` is a leading part of `s`.
pub open spec fn is_prefix(p: Seq<Seq<char>>, s: Seq<Seq<char>>) -> bool {
    p.len() <= s.len() && s.subrange(0, p.len() as int) == p
}

/// Values filed under subjects; each subject has at most one node.
#[derive(Debug)]
pub struct SubjectTree<T> {
    nodes: Vec<SubjectTreeNode<T>>,
}

impl<T> SubjectTree<T> {
    pub closed spec fn wf(&self) -> bool {
        forall|i: int, j: int|
            0 <= i < self.nodes@.len() && 0 <= j < self.nodes@.len() && i != j
                ==> #[trigger] self.nodes@[i].subject@ != #[trigger] self.nodes@[j].subject@
    }

    /// The nodes in the order they were created.
    pub closed spec fn node_seq(&self) -> Seq<SubjectTreeNode<T>> {
        self.nodes@
    }

    pub closed spec fn filed(&self, p: Seq<Seq<char>>) -> bool {
        exists|i: int| 0 <= i < self.nodes@.len() && #[trigger] self.nodes@[i].subject@ == p
    }

    /// The value filed under `p`, if a node stands there.
    pub closed spec fn at(&self, p: Seq<Seq<char>>) -> Option<T> {
        if self.filed(p) {
            let i = choose|i: int| 0 <= i < self.nodes@.len() && #[trigger] self.nodes@[i].subject@ == p;
            Some(self.nodes@[i].value)
        } else {
            None
        }
    }

    proof fn lemma_at(&self, i: int)
        requires
            self.wf(),
            0 <= i < self.nodes@.len(),
        ensures
            self.at(self.nodes@[i].subject@) == Some(self.nodes@[i].value),
    {
        let p = self.nodes@[i].subject@;
        assert(self.filed(p));
        let j = choose|j: int| 0 <= j < self.nodes@.len() && #[trigger] self.nodes@[j].subject@ == p;
        assert(i == j);
    }

    /// A tree with nothing filed.
    pub fn new() -> (r: Self)
        ensures
            r.wf(),
            r.node_seq().len() == 0,
            forall|p: Seq<Seq<char>>| #[trigger] r.at(p) is None,
    {
        SubjectTree { nodes: Vec::new() }
    }

    fn find(&self, subject: &Subject) -> (r: Option<usize>)
        requires
            self.wf(),
        ensures
            match r {
                Some(i) => i < self.nodes@.len() && self.nodes@[i as int].subject@ == subject@
                    && self.at(subject@) == Some(self.nodes@[i as int].value),
                None => self.at(subject@) is None,
            },
    {
        let mut i: usize = 0;
        while i < self.nodes.len()
            invariant
                self.wf(),
                0 <= i <= self.nodes@.len(),
                forall|j: int| 0 <= j < i ==> #[trigger] self.nodes@[j].subject@ != subject@,
            decreases self.nodes@.len() - i,
        {
            if self.nodes[i].subject.equals(subject) {
                proof {
                    self.lemma_at(i as int);
                }
                return Some(i);
            }
            i = i + 1;
        }
        None
    }

    /// Index of the node of `subject`, creating it with `empty` if there is none.
    fn locate_mut(&mut self, subject: &Subject, empty: T) -> (r: usize)
        requires
            old(self).wf(),
        ensures
            final(self).wf(),
            r < final(self).nodes@.len(),
            final(self).nodes@[r as int].subject@ == subject@,
            final(self).at(subject@) == Some(final(self).nodes@[r as int].value),
            old(self).at(subject@) matches Some(v) ==> final(self).nodes@[r as int].value == v,
            old(self).at(subject@) is None ==> final(self).nodes@[r as int].value == empty,
            forall|p: Seq<Seq<char>>| p != subject@ ==> #[trigger] final(self).at(p) == old(self).at(p),
            final(self).nodes@.len() >= old(self).nodes@.len(),
            forall|j: int| 0 <= j < old(self).nodes@.len() ==> #[trigger] final(self).nodes@[j] == old(self).nodes@[j],
            final(self).nodes@.len() > old(self).nodes@.len() ==> final(self).nodes@.len() == old(self).nodes@.len() + 1
                && r == old(self).nodes@.len(),
            final(self).nodes@.len() == old(self).nodes@.len() ==> r < old(self).nodes@.len(),
    {
        match self.find(subject) {
            Some(i) => i,
            None => {
                let ghost prev = *self;
                self.nodes.push(SubjectTreeNode { subject: subject.copy(), value: empty });
                let n = self.nodes.len() - 1;
                assert forall|a: int, b: int|
                    0 <= a < self.nodes@.len() && 0 <= b < self.nodes@.len() && a != b
                    implies #[trigger] self.nodes@[a].subject@ != #[trigger] self.nodes@[b].subject@ by {
                    if a == n as int {
                        assert(!prev.filed(subject@));
                        assert(prev.nodes@[b].subject@ != subject@);
                    } else if b == n as int {
                        assert(!prev.filed(subject@));
                        assert(prev.nodes@[a].subject@ != subject@);
                    }
                };
                proof {
                    self.lemma_at(n as int);
                }
                assert forall|p: Seq<Seq<char>>| p != subject@ implies #[trigger] self.at(p) == prev.at(p) by {
                    if prev.filed(p) {
                        let j = choose|j: int| 0 <= j < prev.nodes@.len() && #[trigger] prev.nodes@[j].subject@ == p;
                        prev.lemma_at(j);
                        self.lemma_at(j);
                    } else if self.filed(p) {
                        let j = choose|j: int| 0 <= j < self.nodes@.len() && #[trigger] self.nodes@[j].subject@ == p;
                        assert(prev.nodes@[j].subject@ == p);
                    }
                };
                n
            },
        }
    }
}

/// The values of a node list filed strictly below `p`, node by node.
pub open spec fn values_below<TT>(nodes: Seq<SubjectTreeNode<Vec<TT>>>, p: Seq<Seq<char>>) -> Seq<TT>
    decreases nodes.len(),
{
    if nodes.len() == 0 {
        Seq::<TT>::empty()
    } else {
        let prev = values_below(nodes.drop_last(), p);
        if is_prefix(p, nodes.last().path()) && nodes.last().path() != p {
            prev + nodes.last().held()@
        } else {
            prev
        }
    }
}

/// The subjects and values of a node list filed strictly below `p`, node
/// by node, leaving out nodes without a value.
pub open spec fn pairs_below<TT>(nodes: Seq<SubjectTreeNode<Option<TT>>>, p: Seq<Seq<char>>) -> Seq<(Seq<Seq<char>>, TT)>
    decreases nodes.len(),
{
    if nodes.len() == 0 {
        Seq::<(Seq<Seq<char>>, TT)>::empty()
    } else {
        let prev = pairs_below(nodes.drop_last(), p);
        match nodes.last().held() {
            Some(v) => if is_prefix(p, nodes.last().path()) && nodes.last().path() != p {
                prev.push((nodes.last().path(), v))
            } else {
                prev
            },
            None => prev,
        }
    }
}

impl<TT> SubjectTree<Vec<TT>> {
    /// The values filed under `p`; none where no node stands.
    pub open spec fn values(&self, p: Seq<Seq<char>>) -> Seq<TT> {
        match self.at(p) {
            Some(v) => v@,
            None => Seq::<TT>::empty(),
        }
    }

    /// The values filed under each leading part of `p`, shortest first,
    /// up to its first `n` names.
    pub open spec fn values_along(&self, p: Seq<Seq<char>>, n: nat) -> Seq<TT>
        decreases n,
    {
        if n == 0 {
            self.values(p.subrange(0, 0))
        } else {
            self.values_along(p, (n - 1) as nat) + self.values(p.subrange(0, n as int))
        }
    }

    /// Files `value` under `subject`, after the values already there.
    pub fn push(&mut self, subject: &Subject, value: TT)
        requires
            old(self).wf(),
        ensures
            final(self).wf(),
            final(self).values(subject@) == old(self).values(subject@).push(value),
            forall|p: Seq<Seq<char>>| p != subject@ ==> #[trigger] final(self).at(p) == old(self).at(p),
    {
        let i = self.locate_mut(subject, Vec::new());
        let ghost mid = *self;
        self.nodes[i].value.push(value);
        assert forall|a: int, b: int|
            0 <= a < self.nodes@.len() && 0 <= b < self.nodes@.len() && a != b
            implies #[trigger] self.nodes@[a].subject@ != #[trigger] self.nodes@[b].subject@ by {
            assert(self.nodes@[a].subject@ == mid.nodes@[a].subject@);
            assert(self.nodes@[b].subject@ == mid.nodes@[b].subject@);
        };
        proof {
            self.lemma_at(i as int);
        }
        assert forall|p: Seq<Seq<char>>| p != subject@ implies #[trigger] self.at(p) == mid.at(p) by {
            if mid.filed(p) {
                let j = choose|j: int| 0 <= j < mid.nodes@.len() && #[trigger] mid.nodes@[j].subject@ == p;
                mid.lemma_at(j);
                self.lemma_at(j);
            } else if self.filed(p) {
                let j = choose|j: int| 0 <= j < self.nodes@.len() && #[trigger] self.nodes@[j].subject@ == p;
                assert(mid.nodes@[j].subject@ == p);
            }
        };
    }

    /// The values filed under each leading part of `subject`, from the
    /// empty subject to the whole of it.
    pub fn gather_prefix(&self, subject: &Subject) -> (r: Vec<&TT>)
        requires
            self.wf(),
        ensures
            r@.map_values(|x: &TT| *x) == self.values_along(subject@, subject@.len()),
    {
        let mut result: Vec<&TT> = Vec::new();
        let n = subject.len();
        let mut i: usize = 0;
        while i <= n
            invariant
                self.wf(),
                n == subject@.len(),
                0 <= i <= n + 1,
                i == 0 ==> result@.len() == 0,
                i > 0 ==> result@.map_values(|x: &TT| *x) == self.values_along(subject@, (i - 1) as nat),
            decreases n + 1 - i,
        {
            let part = subject.take(i);
            let ghost before = result@;
            match self.find(&part) {
                Some(idx) => {
                    self.nodes[idx].gather(&mut result);
                },
                None => {},
            }
            assert(result@.map_values(|x: &TT| *x) =~= before.map_values(|x: &TT| *x) + self.values(subject@.subrange(0, i as int)));
            if i == 0 {
                assert(before.map_values(|x: &TT| *x) =~= Seq::<TT>::empty());
                assert(subject@.subrange(0, 0) =~= subject@.subrange(0, i as int));
            }
            if i == n {
                return result;
            }
            i = i + 1;
        }
        result
    }

    /// The values filed under `subject` first, then those filed below it,
    /// node by node in the order the nodes were created.
    pub fn gather(&self, subject: &Subject) -> (r: Vec<&TT>)
        requires
            self.wf(),
        ensures
            r@.map_values(|x: &TT| *x) == self.values(subject@) + values_below(self.node_seq(), subject@),
    {
        let mut result: Vec<&TT> = Vec::new();
        match self.find(subject) {
            Some(idx) => {
                self.nodes[idx].gather(&mut result);
            },
            None => {},
        }
        let ghost own = result@;
        assert(own.map_values(|x: &TT| *x) =~= self.values(subject@));
        let mut i: usize = 0;
        assert(own.map_values(|x: &TT| *x) + values_below(self.nodes@.subrange(0, 0), subject@) =~= own.map_values(|x: &TT| *x));
        while i < self.nodes.len()
            invariant
                0 <= i <= self.nodes@.len(),
                result@.map_values(|x: &TT| *x) == own.map_values(|x: &TT| *x) + values_below(self.nodes@.subrange(0, i as int), subject@),
            decreases self.nodes@.len() - i,
        {
            let ghost before = result@;
            let ghost sub = self.nodes@.subrange(0, i + 1);
            assert(sub.drop_last() =~= self.nodes@.subrange(0, i as int));
            let node = &self.nodes[i];
            if node.subject.starts_with(subject) && !node.subject.equals(subject) {
                node.gather(&mut result);
            }
            i = i + 1;
        }
        assert(self.nodes@.subrange(0, self.nodes@.len() as int) =~= self.nodes@);
        result
    }
}

impl<TT: Default> SubjectTree<Option<TT>> {
    /// The subject and value filed under `p` itself, if a value is there.
    pub open spec fn own_pair(&self, p: Seq<Seq<char>>) -> Seq<(Seq<Seq<char>>, TT)> {
        match self.at(p) {
            Some(Some(v)) => seq![(p, v)],
            _ => Seq::<(Seq<Seq<char>>, TT)>::empty(),
        }
    }

    /// Files `value` under `subject`, replacing what was there.
    pub fn set(&mut self, subject: &Subject, value: TT)
        requires
            old(self).wf(),
        ensures
            final(self).wf(),
            final(self).at(subject@) == Some(Some(value)),
            forall|p: Seq<Seq<char>>| p != subject@ ==> #[trigger] final(self).at(p) == old(self).at(p),
    {
        let i = self.locate_mut(subject, None);
        let ghost mid = *self;
        self.nodes[i].value = Some(value);
        assert forall|a: int, b: int|
            0 <= a < self.nodes@.len() && 0 <= b < self.nodes@.len() && a != b
            implies #[trigger] self.nodes@[a].subject@ != #[trigger] self.nodes@[b].subject@ by {
            assert(self.nodes@[a].subject@ == mid.nodes@[a].subject@);
            assert(self.nodes@[b].subject@ == mid.nodes@[b].subject@);
        };
        proof {
            self.lemma_at(i as int);
        }
        assert forall|p: Seq<Seq<char>>| p != subject@ implies #[trigger] self.at(p) == mid.at(p) by {
            if mid.filed(p) {
                let j = choose|j: int| 0 <= j < mid.nodes@.len() && #[trigger] mid.nodes@[j].subject@ == p;
                mid.lemma_at(j);
                self.lemma_at(j);
            } else if self.filed(p) {
                let j = choose|j: int| 0 <= j < self.nodes@.len() && #[trigger] self.nodes@[j].subject@ == p;
                assert(mid.nodes@[j].subject@ == p);
            }
        };
    }

    /// The value filed under `subject`, filing a default one first if there
    /// is none.
    pub fn get_or_default(&mut self, subject: &Subject) -> (r: &mut TT)
        requires
            old(self).wf(),
        ensures
            old(self).at(subject@) matches Some(Some(v)) ==> *r == v,
            !(old(self).at(subject@) matches Some(Some(_))) ==> call_ensures(TT::default, (), *r),
            final(self).wf(),
            final(self).at(subject@) == Some(Some(*final(r))),
            forall|p: Seq<Seq<char>>| p != subject@ ==> #[trigger] final(self).at(p) == old(self).at(p),
    {
        let i = self.locate_mut(subject, None);
        let ghost mid = *self;
        proof {
            mid.lemma_at(i as int);
        }
        let d = TT::default();
        let r = self.nodes[i].value.get_or_insert(d);
        assert forall|a: int, b: int|
            0 <= a < after_borrow(self).nodes@.len() && 0 <= b < after_borrow(self).nodes@.len() && a != b
            implies #[trigger] after_borrow(self).nodes@[a].subject@ != #[trigger] after_borrow(self).nodes@[b].subject@ by {
            assert(after_borrow(self).nodes@[a].subject@ == mid.nodes@[a].subject@);
            assert(after_borrow(self).nodes@[b].subject@ == mid.nodes@[b].subject@);
        };
        proof {
            let fin = after_borrow(self);
            fin.lemma_at(i as int);
            assert forall|p: Seq<Seq<char>>| p != subject@ implies #[trigger] fin.at(p) == mid.at(p) by {
                if mid.filed(p) {
                    let j = choose|j: int| 0 <= j < mid.nodes@.len() && #[trigger] mid.nodes@[j].subject@ == p;
                    mid.lemma_at(j);
                    fin.lemma_at(j);
                } else if fin.filed(p) {
                    let j = choose|j: int| 0 <= j < fin.nodes@.len() && #[trigger] fin.nodes@[j].subject@ == p;
                    assert(mid.nodes@[j].subject@ == p);
                }
            };
        }
        r
    }

    /// The value filed under `subject`, if any.
    pub fn get(&self, subject: &Subject) -> (r: Option<&TT>)
        requires
            self.wf(),
        ensures
            match self.at(subject@) {
                Some(Some(v)) => r matches Some(x) && *x == v,
                _ => r is None,
            },
    {
        match self.find(subject) {
            Some(i) => self.nodes[i].value.as_ref(),
            None => None,
        }
    }

    /// The subject and value filed under `subject` first, if any, then those
    /// filed below it, node by node in the order the nodes were created.
    pub fn gather_with_subject(&self, subject: &Subject) -> (r: Vec<(Subject, &TT)>)
        requires
            self.wf(),
        ensures
            r@.map_values(|x: (Subject, &TT)| (x.0@, *x.1)) == self.own_pair(subject@) + pairs_below(
                self.node_seq(),
                subject@,
            ),
    {
        let mut result: Vec<(Subject, &TT)> = Vec::new();
        match self.find(subject) {
            Some(idx) => {
                self.nodes[idx].gather_with_subject(&mut result);
            },
            None => {},
        }
        let ghost own = result@;
        assert(own.map_values(|x: (Subject, &TT)| (x.0@, *x.1)) =~= self.own_pair(subject@));
        assert(own.map_values(|x: (Subject, &TT)| (x.0@, *x.1)) + pairs_below(self.nodes@.subrange(0, 0), subject@)
            =~= own.map_values(|x: (Subject, &TT)| (x.0@, *x.1)));
        let mut i: usize = 0;
        while i < self.nodes.len()
            invariant
                0 <= i <= self.nodes@.len(),
                result@.map_values(|x: (Subject, &TT)| (x.0@, *x.1)) == own.map_values(|x: (Subject, &TT)| (x.0@, *x.1))
                    + pairs_below(self.nodes@.subrange(0, i as int), subject@),
            decreases self.nodes@.len() - i,
        {
            let ghost before = result@;
            let ghost sub = self.nodes@.subrange(0, i + 1);
            assert(sub.drop_last() =~= self.nodes@.subrange(0, i as int));
            let node = &self.nodes[i];
            if node.subject.starts_with(subject) && !node.subject.equals(subject) {
                node.gather_with_subject(&mut result);
            }
            i = i + 1;
        }
        assert(self.nodes@.subrange(0, self.nodes@.len() as int) =~= self.nodes@);
        result
    }
}

} // verus!
