//! Exact algebraic decision-diagram contraction of the Sec. VI PEPS.
//!
//! The row relation is compiled mechanically from the explicit 17-entry `C`.
//! Relational product eliminates input virtual bits during recursion, before a
//! concrete frontier is materialized.
use vstd::prelude::*;

use crate::tensor::{SiteTensorC, VirtualLegs, occupied_legs, sec_vi_c};
use crate::util::{elapsed, message, now, peak_rss_bytes, zero_duration};
use std::collections::HashMap;
use std::time::Duration;

verus! {

broadcast use vstd::std_specs::hash::group_hash_axioms;

/// The largest number of nodes a store holds, so that node numbers pack into
/// cache keys.
pub const MAX_NODES: u64 = 0x0100_0000_0000_0000;

/// A node of an algebraic decision diagram: a terminal value, or a test of a
/// variable with the diagrams for its values 0 and 1.
#[derive(Clone, Copy, Debug, PartialEq, Eq, Structural)]
enum Node {
    Terminal(u128),
    Branch { var: u16, low: usize, high: usize },
}

/// A hash-consed store of decision-diagram nodes with operation caches.
struct AddStore {
    pub nodes: Vec<Node>,
    terminals: HashMap<u128, usize>,
    unique: HashMap<u128, usize>,
    add_cache: HashMap<u128, usize>,
    mul_cache: HashMap<u128, usize>,
    relprod_cache: HashMap<u128, usize>,
    pub unique_lookups: u128,
    pub unique_hits: u128,
    pub apply_lookups: u128,
    pub apply_hits: u128,
    pub relprod_lookups: u128,
    pub relprod_hits: u128,
}

/// Every value of a cache names a node of the store.
pub open spec fn cache_ok(cache: Map<u128, usize>, count: nat) -> bool {
    forall|k: u128| #[trigger] cache.contains_key(k) ==> cache[k] < count
}

/// The children of every branch precede it.
spec fn nodes_ok(nodes: Seq<Node>) -> bool {
    forall|i: int|
        0 <= i < nodes.len() ==> match #[trigger] nodes[i] {
            Node::Branch { var, low, high } => low < i && high < i,
            Node::Terminal(_) => true,
        }
}

/// `a` is `b` extended at the end.
spec fn extends(a: Seq<Node>, b: Seq<Node>) -> bool {
    b.len() <= a.len() && forall|i: int| 0 <= i < b.len() ==> a[i] == b[i]
}

/// The key under which the branch `(var, low, high)` is shared.
pub open spec fn branch_key(var: u16, low: usize, high: usize) -> int {
    var * 0x1_0000_0000_0000_0000_0000_0000_0000 + low * 0x0100_0000_0000_0000 + high
}

/// Every shared key names the branch it was made from.
spec fn unique_ok(unique: Map<u128, usize>, nodes: Seq<Node>) -> bool {
    forall|k: u128|
        #[trigger] unique.contains_key(k) ==> unique[k] < nodes.len() && match nodes[unique[k] as int] {
            Node::Branch { var, low, high } => branch_key(var, low, high) == k,
            Node::Terminal(_) => false,
        }
}

/// Distinct branches of a store of at most `MAX_NODES` nodes have distinct
/// keys.
proof fn lemma_branch_key_injective(v1: u16, l1: usize, h1: usize, v2: u16, l2: usize, h2: usize)
    requires
        l1 < 0x0100_0000_0000_0000,
        h1 < 0x0100_0000_0000_0000,
        l2 < 0x0100_0000_0000_0000,
        h2 < 0x0100_0000_0000_0000,
        branch_key(v1, l1, h1) == branch_key(v2, l2, h2),
    ensures
        v1 == v2 && l1 == l2 && h1 == h2,
{
    let d: int = 0x0100_0000_0000_0000;
    let k = branch_key(v1, l1, h1);
    assert(k == (v1 * d + l1) * d + h1);
    assert(k == (v2 * d + l2) * d + h2);
    vstd::arithmetic::div_mod::lemma_fundamental_div_mod_converse(k, d, v1 * d + l1, h1 as int);
    vstd::arithmetic::div_mod::lemma_fundamental_div_mod_converse(k, d, v2 * d + l2, h2 as int);
    vstd::arithmetic::div_mod::lemma_fundamental_div_mod_converse(k / d, d, v1 as int, l1 as int);
    vstd::arithmetic::div_mod::lemma_fundamental_div_mod_converse(k / d, d, v2 as int, l2 as int);
}

/// The two-number cache key of `(a, b)`.
pub open spec fn pair_key(a: usize, b: usize) -> u128 {
    (a * 0x1_0000_0000_0000_0000 + b) as u128
}

impl AddStore {
    /// The store is well formed.
    spec fn wf(&self) -> bool {
        &&& self.nodes@.len() <= MAX_NODES
        &&& nodes_ok(self.nodes@)
        &&& cache_ok(self.terminals@, self.nodes@.len())
        &&& cache_ok(self.unique@, self.nodes@.len())
        &&& unique_ok(self.unique@, self.nodes@)
        &&& cache_ok(self.add_cache@, self.nodes@.len())
        &&& cache_ok(self.mul_cache@, self.nodes@.len())
        &&& cache_ok(self.relprod_cache@, self.nodes@.len())
        &&& forall|v: u128| #[trigger] self.terminals@.contains_key(v) ==> self.nodes@[self.terminals@[v] as int]
            == Node::Terminal(v)
        &&& self.unique_hits <= self.unique_lookups
        &&& self.apply_hits <= self.apply_lookups
        &&& self.relprod_hits <= self.relprod_lookups
    }

    fn new() -> (store: Self)
        ensures
            store.wf(),
            store.nodes@.len() == 0,
    {
        AddStore {
            nodes: Vec::new(),
            terminals: HashMap::new(),
            unique: HashMap::new(),
            add_cache: HashMap::new(),
            mul_cache: HashMap::new(),
            relprod_cache: HashMap::new(),
            unique_lookups: 0,
            unique_hits: 0,
            apply_lookups: 0,
            apply_hits: 0,
            relprod_lookups: 0,
            relprod_hits: 0,
        }
    }

    /// The terminal node of `value`.
    fn terminal(&mut self, value: u128) -> (node: Result<usize, String>)
        requires
            old(self).wf(),
        ensures
            final(self).wf(),
            extends(final(self).nodes@, old(self).nodes@),
            node matches Ok(id) ==> id < final(self).nodes@.len() && final(self).nodes@[id as int] == Node::Terminal(
                value,
            ),
            old(self).nodes@.len() < MAX_NODES ==> node is Ok,
            final(self).nodes@.len() <= old(self).nodes@.len() + 1,
    {
        match self.terminals.get(&value) {
            Some(id) => {
                return Ok(*id);
            },
            None => {},
        }
        let node = self.nodes.len();
        if node as u64 >= MAX_NODES {
            return Err(message("decision-diagram store is full"));
        }
        self.nodes.push(Node::Terminal(value));
        self.terminals.insert(value, node);
        Ok(node)
    }

    /// The branch testing `var` with children `low` and `high`, shared with
    /// any equal branch already stored; a branch with equal children is its
    /// child.
    fn branch(&mut self, var: u16, low: usize, high: usize) -> (node: Result<usize, String>)
        requires
            old(self).wf(),
            low < old(self).nodes@.len(),
            high < old(self).nodes@.len(),
        ensures
            final(self).wf(),
            extends(final(self).nodes@, old(self).nodes@),
            node matches Ok(id) ==> id < final(self).nodes@.len(),
            old(self).nodes@.len() < MAX_NODES ==> node is Ok,
            low == high ==> node == Ok::<usize, String>(low),
            low != high ==> (node matches Ok(id) ==> final(self).nodes@[id as int] == Node::Branch {
                var,
                low,
                high,
            }),
            final(self).nodes@.len() <= old(self).nodes@.len() + 1,
    {
        if low == high {
            return Ok(low);
        }
        self.unique_lookups = saturating_increment(self.unique_lookups);
        let key = (var as u128) * 0x1_0000_0000_0000_0000_0000_0000_0000 + (low as u128)
            * 0x0100_0000_0000_0000 + high as u128;
        proof {
            assert(key == branch_key(var, low, high));
        }
        match self.unique.get(&key) {
            Some(id) => {
                proof {
                    let id = *id;
                    assert(self.unique@.contains_key(key));
                    match self.nodes@[id as int] {
                        Node::Branch { var: v, low: l, high: h } => {
                            assert(l < id && h < id);
                            lemma_branch_key_injective(v, l, h, var, low, high);
                        },
                        Node::Terminal(_) => {},
                    }
                }
                self.unique_hits = saturating_increment(self.unique_hits);
                return Ok(*id);
            },
            None => {},
        }
        let node = self.nodes.len();
        if node as u64 >= MAX_NODES {
            return Err(message("decision-diagram store is full"));
        }
        self.nodes.push(Node::Branch { var, low, high });
        self.unique.insert(key, node);
        Ok(node)
    }

    /// The variable a node tests; terminals test none and sort last.
    fn var(&self, node: usize) -> (var: u16)
        requires
            node < self.nodes@.len(),
        ensures
            var == match self.nodes@[node as int] {
                Node::Terminal(_) => u16::MAX,
                Node::Branch { var, .. } => var,
            },
    {
        match self.nodes[node] {
            Node::Terminal(_) => u16::MAX,
            Node::Branch { var, .. } => var,
        }
    }

    /// The cofactors of a node for `var`: its children when it tests `var`,
    /// the node itself twice otherwise.
    fn children_at(&self, node: usize, var: u16) -> (children: (usize, usize))
        requires
            self.wf(),
            node < self.nodes@.len(),
        ensures
            children == match self.nodes@[node as int] {
                Node::Branch { var: v, low, high } => if v == var {
                    (low, high)
                } else {
                    (node, node)
                },
                Node::Terminal(_) => (node, node),
            },
            children.0 <= node,
            children.1 <= node,
            (self.nodes@[node as int] matches Node::Branch { var: v, .. } && v == var) ==> children.0 < node
                && children.1 < node,
    {
        match self.nodes[node] {
            Node::Branch { var: node_var, low, high } => {
                if node_var == var {
                    (low, high)
                } else {
                    (node, node)
                }
            },
            _ => (node, node),
        }
    }
}

/// `counter + 1`, staying at the largest value.
fn saturating_increment(counter: u128) -> (next: u128)
    ensures
        next == if counter == u128::MAX {
            counter
        } else {
            (counter + 1) as u128
        },
{
    if counter == u128::MAX {
        counter
    } else {
        counter + 1
    }
}

/// The pair `(left, right)` in increasing order.
fn ordered_pair(left: usize, right: usize) -> (pair: (usize, usize))
    ensures
        pair.0 <= pair.1,
        (pair.0 == left && pair.1 == right) || (pair.0 == right && pair.1 == left),
{
    if left <= right {
        (left, right)
    } else {
        (right, left)
    }
}


impl AddStore {
    /// Pointwise sum of two diagrams.
    fn add(&mut self, left: usize, right: usize) -> (node: Result<usize, String>)
        requires
            old(self).wf(),
            left < old(self).nodes@.len(),
            right < old(self).nodes@.len(),
        ensures
            final(self).wf(),
            extends(final(self).nodes@, old(self).nodes@),
            node matches Ok(id) ==> id < final(self).nodes@.len(),
        decreases left + right,
    {
        let zero = self.terminal(0)?;
        if left == zero {
            return Ok(right);
        }
        if right == zero {
            return Ok(left);
        }
        let (first, second) = ordered_pair(left, right);
        let key = (first as u128) * 0x1_0000_0000_0000_0000 + second as u128;
        self.apply_lookups = saturating_increment(self.apply_lookups);
        match self.add_cache.get(&key) {
            Some(id) => {
                self.apply_hits = saturating_increment(self.apply_hits);
                return Ok(*id);
            },
            None => {},
        }
        let result = match (self.nodes[left], self.nodes[right]) {
            (Node::Terminal(a), Node::Terminal(b)) => {
                let sum = match a.checked_add(b) {
                    Some(v) => v,
                    None => {
                        return Err(message("ADD terminal addition overflow"));
                    },
                };
                self.terminal(sum)?
            },
            _ => {
                let left_var = self.var(left);
                let right_var = self.var(right);
                let var = if left_var <= right_var {
                    left_var
                } else {
                    right_var
                };
                let (left_low, left_high) = self.children_at(left, var);
                let (right_low, right_high) = self.children_at(right, var);
                let low = self.add(left_low, right_low)?;
                let high = self.add(left_high, right_high)?;
                self.branch(var, low, high)?
            },
        };
        self.add_cache.insert(key, result);
        Ok(result)
    }

    /// Pointwise product of two diagrams.
    fn mul(&mut self, left: usize, right: usize) -> (node: Result<usize, String>)
        requires
            old(self).wf(),
            left < old(self).nodes@.len(),
            right < old(self).nodes@.len(),
        ensures
            final(self).wf(),
            extends(final(self).nodes@, old(self).nodes@),
            node matches Ok(id) ==> id < final(self).nodes@.len(),
        decreases left + right,
    {
        let zero = self.terminal(0)?;
        let one = self.terminal(1)?;
        if left == zero || right == zero {
            return Ok(zero);
        }
        if left == one {
            return Ok(right);
        }
        if right == one {
            return Ok(left);
        }
        let (first, second) = ordered_pair(left, right);
        let key = (first as u128) * 0x1_0000_0000_0000_0000 + second as u128;
        self.apply_lookups = saturating_increment(self.apply_lookups);
        match self.mul_cache.get(&key) {
            Some(id) => {
                self.apply_hits = saturating_increment(self.apply_hits);
                return Ok(*id);
            },
            None => {},
        }
        let result = match (self.nodes[left], self.nodes[right]) {
            (Node::Terminal(a), Node::Terminal(b)) => {
                let product = match a.checked_mul(b) {
                    Some(v) => v,
                    None => {
                        return Err(message("ADD terminal multiplication overflow"));
                    },
                };
                self.terminal(product)?
            },
            _ => {
                let left_var = self.var(left);
                let right_var = self.var(right);
                let var = if left_var <= right_var {
                    left_var
                } else {
                    right_var
                };
                let (left_low, left_high) = self.children_at(left, var);
                let (right_low, right_high) = self.children_at(right, var);
                let low = self.mul(left_low, right_low)?;
                let high = self.mul(left_high, right_high)?;
                self.branch(var, low, high)?
            },
        };
        self.mul_cache.insert(key, result);
        Ok(result)
    }
}


/// Sorts variable assignments by variable with `slice::sort_unstable_by_key`.
/// Stated: the result is a reordering of the input in non-decreasing
/// variable order.
#[verifier::external_body]
fn sort_assignments(assignments: &mut Vec<(u16, u8)>)
    ensures
        final(assignments)@.to_multiset() == old(assignments)@.to_multiset(),
        forall|i: int, j: int|
            0 <= i <= j < final(assignments)@.len() ==> final(assignments)@[i].0 <= final(assignments)@[j].0,
{
    assignments.sort_unstable_by_key(|assignment| assignment.0);
}

/// The number of entries of `s` that are set.
spec fn trues(s: Seq<bool>) -> nat
    decreases s.len(),
{
    if s.len() == 0 {
        0
    } else {
        trues(s.drop_last()) + if s.last() {
            1nat
        } else {
            0nat
        }
    }
}

/// A set of nodes that holds `roots` and the children of each of its branches.
spec fn closed_from(nodes: Seq<Node>, roots: Seq<usize>, s: Set<usize>) -> bool {
    &&& forall|i: int| 0 <= i < roots.len() ==> s.contains(#[trigger] roots[i])
    &&& forall|x: usize|
        #[trigger] s.contains(x) && x < nodes.len() ==> match nodes[x as int] {
            Node::Branch { low, high, .. } => s.contains(low) && s.contains(high),
            Node::Terminal(_) => true,
        }
}

/// The nodes reachable from `roots`: those in every closed set.
spec fn reachable_nodes(nodes: Seq<Node>, roots: Seq<usize>) -> Set<usize> {
    Set::new(|x: usize| forall|s: Set<usize>| #[trigger] closed_from(nodes, roots, s) ==> s.contains(x))
}

/// Popping the top of a stack keeps every other entry.
proof fn lemma_pop_contains(old: Seq<usize>, new: Seq<usize>)
    requires
        old.len() > 0,
        new == old.drop_last(),
    ensures
        forall|v: usize| old.contains(v) ==> new.contains(v) || v == old[old.len() - 1],
        forall|v: usize| new.contains(v) ==> old.contains(v),
{
    assert forall|v: usize| old.contains(v) implies new.contains(v) || v == old[old.len() - 1] by {
        let k = choose|k: int| 0 <= k < old.len() && old[k] == v;
        if k < old.len() - 1 {
            assert(new[k] == v);
        }
    }
    assert forall|v: usize| new.contains(v) implies old.contains(v) by {
        let k = choose|k: int| 0 <= k < new.len() && new[k] == v;
        assert(old[k] == v);
    }
}

/// The positions marked in `s`.
spec fn marked(s: Seq<bool>) -> Set<usize> {
    Set::new(|x: usize| (x as int) < s.len() && s[x as int])
}

proof fn lemma_trues_card(s: Seq<bool>)
    requires
        s.len() <= usize::MAX,
    ensures
        marked(s).finite(),
        marked(s).len() == trues(s),
    decreases s.len(),
{
    if s.len() == 0 {
        assert(marked(s) =~= Set::<usize>::empty());
    } else {
        let d = s.drop_last();
        lemma_trues_card(d);
        let last = (s.len() - 1) as usize;
        if s.last() {
            assert(marked(s) =~= marked(d).insert(last));
            assert(!marked(d).contains(last));
        } else {
            assert(marked(s) =~= marked(d));
        }
    }
}

proof fn lemma_trues_bound(s: Seq<bool>)
    ensures
        trues(s) <= s.len(),
    decreases s.len(),
{
    if s.len() > 0 {
        lemma_trues_bound(s.drop_last());
    }
}

proof fn lemma_trues_set(s: Seq<bool>, i: int)
    requires
        0 <= i < s.len(),
        !s[i],
    ensures
        trues(s.update(i, true)) == trues(s) + 1,
    decreases s.len(),
{
    if i < s.len() - 1 {
        assert(s.update(i, true).drop_last() =~= s.drop_last().update(i, true));
        lemma_trues_set(s.drop_last(), i);
    } else {
        assert(s.update(i, true).drop_last() =~= s.drop_last());
    }
}

impl AddStore {
    /// The relational product of the boundary and the row relation: multiply
    /// them and sum out every input variable (`level % 6 < 3`) from `level`
    /// on, keeping the output variables.
    fn relprod(&mut self, left: usize, right: usize, level: u16, variables: u16) -> (node: Result<usize, String>)
        requires
            old(self).wf(),
            left < old(self).nodes@.len(),
            right < old(self).nodes@.len(),
            level <= variables,
        ensures
            final(self).wf(),
            extends(final(self).nodes@, old(self).nodes@),
            node matches Ok(id) ==> id < final(self).nodes@.len(),
        decreases variables - level,
    {
        let zero = self.terminal(0)?;
        if left == zero || right == zero {
            return Ok(zero);
        }
        if level == variables {
            return self.mul(left, right);
        }
        let (first, second) = ordered_pair(left, right);
        let key = (first as u128) * 0x100_0000_0000_0000_0000 + (second as u128) * 0x1_0000 + level as u128;
        self.relprod_lookups = saturating_increment(self.relprod_lookups);
        match self.relprod_cache.get(&key) {
            Some(id) => {
                self.relprod_hits = saturating_increment(self.relprod_hits);
                return Ok(*id);
            },
            None => {},
        }
        let left_var = self.var(left);
        let right_var = self.var(right);
        let top = if left_var <= right_var {
            left_var
        } else {
            right_var
        };
        let result = if level < top {
            let child = self.relprod(left, right, level + 1, variables)?;
            if level % 6 < 3 {
                self.add(child, child)?
            } else {
                child
            }
        } else {
            let (left_low, left_high) = self.children_at(left, top);
            let (right_low, right_high) = self.children_at(right, top);
            let low = self.relprod(left_low, right_low, level + 1, variables)?;
            let high = self.relprod(left_high, right_high, level + 1, variables)?;
            if level % 6 < 3 {
                self.add(low, high)?
            } else {
                self.branch(level, low, high)?
            }
        };
        self.relprod_cache.insert(key, result);
        Ok(result)
    }

    /// The diagram worth `value` on the assignments given and zero elsewhere;
    /// contradictory assignments give the zero diagram.
    fn cube(&mut self, assignments: &Vec<(u16, u8)>, value: u128) -> (node: Result<usize, String>)
        requires
            old(self).wf(),
        ensures
            final(self).wf(),
            extends(final(self).nodes@, old(self).nodes@),
            node matches Ok(id) ==> id < final(self).nodes@.len(),
            (forall|i: int| 0 <= i < assignments@.len() ==> (#[trigger] assignments@[i]).1 <= 1) && old(
                self,
            ).nodes@.len() + assignments@.len() + 2 <= MAX_NODES ==> node is Ok,
    {
        let ghost binary = forall|i: int| 0 <= i < assignments@.len() ==> (#[trigger] assignments@[i]).1 <= 1;
        let mut sorted: Vec<(u16, u8)> = Vec::new();
        let mut i: usize = 0;
        while i < assignments.len()
            invariant
                i <= assignments@.len(),
                self.wf(),
                *self == *old(self),
                sorted@ == assignments@.take(i as int),
            decreases assignments@.len() - i,
        {
            sorted.push(assignments[i]);
            i = i + 1;
            proof {
                assert(assignments@.take(i as int) =~= assignments@.take(i - 1).push(assignments@[i - 1]));
            }
        }
        proof {
            assert(assignments@.take(i as int) =~= assignments@);
        }
        let ghost unsorted = sorted@;
        sort_assignments(&mut sorted);
        proof {
            vstd::seq_lib::to_multiset_len(sorted@);
            vstd::seq_lib::to_multiset_len(unsorted);
            assert forall|k: int| 0 <= k < sorted@.len() && binary implies (#[trigger] sorted@[k]).1 <= 1 by {
                vstd::seq_lib::to_multiset_contains(sorted@, sorted@[k]);
                vstd::seq_lib::to_multiset_contains(unsorted, sorted@[k]);
                assert(sorted@.contains(sorted@[k]));
            }
        }
        let mut k: usize = 1;
        while k < sorted.len()
            invariant
                1 <= k,
                self.wf(),
                *self == *old(self),
            decreases sorted@.len() - k,
        {
            proof {
                assert(old(self).nodes@.len() + 2 <= MAX_NODES ==> old(self).nodes@.len() < MAX_NODES);
            }
            if sorted[k - 1].0 == sorted[k].0 && sorted[k - 1].1 != sorted[k].1 {
                return self.terminal(0);
            }
            k = k + 1;
        }
        let mut distinct: Vec<(u16, u8)> = Vec::new();
        let mut d: usize = 0;
        while d < sorted.len()
            invariant
                d <= sorted@.len(),
                self.wf(),
                *self == *old(self),
                distinct@.len() <= d,
                binary ==> forall|k: int| 0 <= k < sorted@.len() ==> (#[trigger] sorted@[k]).1 <= 1,
                binary ==> forall|k: int| 0 <= k < distinct@.len() ==> (#[trigger] distinct@[k]).1 <= 1,
            decreases sorted@.len() - d,
        {
            if d == 0 || sorted[d - 1].0 != sorted[d].0 || sorted[d - 1].1 != sorted[d].1 {
                distinct.push(sorted[d]);
            }
            d = d + 1;
        }
        let ghost owed = binary && old(self).nodes@.len() + assignments@.len() + 2 <= MAX_NODES;
        let zero = self.terminal(0)?;
        let mut root = self.terminal(value)?;
        let mut position = distinct.len();
        while position > 0
            invariant
                self.wf(),
                extends(self.nodes@, old(self).nodes@),
                zero < self.nodes@.len(),
                root < self.nodes@.len(),
                position <= distinct@.len(),
                distinct@.len() <= assignments@.len(),
                owed == (binary && old(self).nodes@.len() + assignments@.len() + 2 <= MAX_NODES),
                binary == (forall|i: int| 0 <= i < assignments@.len() ==> (#[trigger] assignments@[i]).1 <= 1),
                owed ==> forall|k: int| 0 <= k < distinct@.len() ==> (#[trigger] distinct@[k]).1 <= 1,
                owed ==> self.nodes@.len() <= old(self).nodes@.len() + 2 + (distinct@.len() - position),
            decreases position,
        {
            position = position - 1;
            let (var, bit) = distinct[position];
            proof {
                if owed {
                    assert(self.nodes@.len() < MAX_NODES);
                }
            }
            let ghost before_len = self.nodes@.len();
            let built = match bit {
                0 => self.branch(var, root, zero),
                1 => self.branch(var, zero, root),
                _ => {
                    return Err(message("ADD cube bit must be binary"));
                },
            };
            root = match built {
                Ok(id) => id,
                Err(e) => {
                    proof {
                        assert(before_len >= MAX_NODES);
                        assert(!owed);
                    }
                    return Err(e);
                },
            };
        }
        Ok(root)
    }

    /// Rename every output variable to the input variable of the same
    /// channel, three levels up; an input variable left in the diagram is an
    /// error.
    fn rename_output_to_input(&mut self, root: usize, cache: &mut HashMap<u128, usize>) -> (node: Result<usize, String>)
        requires
            old(self).wf(),
            root < old(self).nodes@.len(),
            cache_ok(old(cache)@, old(self).nodes@.len()),
        ensures
            final(self).wf(),
            extends(final(self).nodes@, old(self).nodes@),
            cache_ok(final(cache)@, final(self).nodes@.len()),
            node matches Ok(id) ==> id < final(self).nodes@.len(),
        decreases root,
    {
        let key = root as u128;
        match cache.get(&key) {
            Some(id) => {
                return Ok(*id);
            },
            None => {},
        }
        let renamed = match self.nodes[root] {
            Node::Terminal(_) => root,
            Node::Branch { var, low, high } => {
                if var % 6 < 3 {
                    return Err(message("relational product retained an input variable"));
                }
                let low = self.rename_output_to_input(low, cache)?;
                let high = self.rename_output_to_input(high, cache)?;
                self.branch(var - 3, low, high)?
            },
        };
        cache.insert(key, renamed);
        Ok(renamed)
    }

    /// The diagram with variable `target` fixed to `value`.
    fn restrict(&mut self, root: usize, target: u16, value: bool, cache: &mut HashMap<u128, usize>) -> (node: Result<
        usize,
        String,
    >)
        requires
            old(self).wf(),
            root < old(self).nodes@.len(),
            cache_ok(old(cache)@, old(self).nodes@.len()),
        ensures
            final(self).wf(),
            extends(final(self).nodes@, old(self).nodes@),
            cache_ok(final(cache)@, final(self).nodes@.len()),
            node matches Ok(id) ==> id < final(self).nodes@.len(),
        decreases root,
    {
        let key = (root as u128) * 0x2_0000 + (target as u128) * 2 + if value {
            1
        } else {
            0
        };
        match cache.get(&key) {
            Some(id) => {
                return Ok(*id);
            },
            None => {},
        }
        let restricted = match self.nodes[root] {
            Node::Terminal(_) => root,
            Node::Branch { var, low, high } => {
                if var == target {
                    if value {
                        high
                    } else {
                        low
                    }
                } else if var < target {
                    let low = self.restrict(low, target, value, cache)?;
                    let high = self.restrict(high, target, value, cache)?;
                    self.branch(var, low, high)?
                } else {
                    root
                }
            },
        };
        cache.insert(key, restricted);
        Ok(restricted)
    }

    /// The diagram with variable `target` summed out.
    fn sum_variable(&mut self, root: usize, target: u16, cache: &mut HashMap<u128, usize>) -> (node: Result<
        usize,
        String,
    >)
        requires
            old(self).wf(),
            root < old(self).nodes@.len(),
            cache_ok(old(cache)@, old(self).nodes@.len()),
        ensures
            final(self).wf(),
            extends(final(self).nodes@, old(self).nodes@),
            cache_ok(final(cache)@, final(self).nodes@.len()),
            node matches Ok(id) ==> id < final(self).nodes@.len(),
        decreases root,
    {
        let key = (root as u128) * 0x1_0000 + target as u128;
        match cache.get(&key) {
            Some(id) => {
                return Ok(*id);
            },
            None => {},
        }
        let summed = match self.nodes[root] {
            Node::Terminal(_) => self.add(root, root)?,
            Node::Branch { var, low, high } => {
                if var == target {
                    self.add(low, high)?
                } else if var < target {
                    let low = self.sum_variable(low, target, cache)?;
                    let high = self.sum_variable(high, target, cache)?;
                    self.branch(var, low, high)?
                } else {
                    self.add(root, root)?
                }
            },
        };
        cache.insert(key, summed);
        Ok(summed)
    }

    /// The number of distinct nodes reachable from `roots`.
    fn reachable_count(&self, roots: &Vec<usize>) -> (count: usize)
        requires
            self.wf(),
            forall|i: int| 0 <= i < roots@.len() ==> #[trigger] roots@[i] < self.nodes@.len(),
        ensures
            count <= self.nodes@.len(),
            count == reachable_nodes(self.nodes@, roots@).len(),
    {
        let length = self.nodes.len();
        let mut visited: Vec<bool> = Vec::new();
        let mut v: usize = 0;
        while v < length
            invariant
                v <= length,
                visited@.len() == v,
                forall|k: int| 0 <= k < v ==> !#[trigger] visited@[k],
            decreases length - v,
        {
            visited.push(false);
            v = v + 1;
        }
        proof {
            lemma_trues_zero(visited@);
        }
        let mut stack: Vec<usize> = Vec::new();
        let mut r: usize = 0;
        proof {
            assert(roots@.take(0) =~= Seq::<usize>::empty());
        }
        while r < roots.len()
            invariant
                r <= roots@.len(),
                forall|i: int| 0 <= i < roots@.len() ==> #[trigger] roots@[i] < length,
                forall|i: int| 0 <= i < stack@.len() ==> #[trigger] stack@[i] < length,
                stack@ == roots@.take(r as int),
            decreases roots@.len() - r,
        {
            stack.push(roots[r]);
            r = r + 1;
            proof {
                assert(roots@.take(r as int) =~= roots@.take(r - 1).push(roots@[r - 1]));
            }
        }
        proof {
            assert(roots@.take(r as int) =~= roots@);
            assert forall|i: int| 0 <= i < roots@.len() implies visited@[#[trigger] roots@[i] as int] || stack@.contains(
                roots@[i],
            ) by {
                assert(stack@[i] == roots@[i]);
            }
        }
        let mut count: usize = 0;
        while stack.len() > 0
            invariant
                self.wf(),
                length == self.nodes@.len(),
                visited@.len() == length,
                count == trues(visited@),
                forall|i: int| 0 <= i < stack@.len() ==> #[trigger] stack@[i] < length,
                forall|i: int| 0 <= i < roots@.len() ==> #[trigger] roots@[i] < length,
                forall|i: int| 0 <= i < roots@.len() ==> visited@[#[trigger] roots@[i] as int] || stack@.contains(roots@[i]),
                forall|x: usize|
                    x < length && #[trigger] visited@[x as int] ==> match self.nodes@[x as int] {
                        Node::Branch { low, high, .. } => (visited@[low as int] || stack@.contains(low)) && (
                        visited@[high as int] || stack@.contains(high)),
                        Node::Terminal(_) => true,
                    },
                forall|s: Set<usize>|
                    #[trigger] closed_from(self.nodes@, roots@, s) ==> (forall|x: usize|
                        x < length && visited@[x as int] ==> s.contains(x)) && (forall|i: int|
                        0 <= i < stack@.len() ==> s.contains(#[trigger] stack@[i])),
            decreases length - count, stack@.len(),
        {
            let ghost old_stack = stack@;
            let ghost old_visited = visited@;
            proof {
                lemma_trues_bound(visited@);
            }
            let node = stack.pop().unwrap();
            proof {
                lemma_pop_contains(old_stack, stack@);
                assert(old_stack[old_stack.len() - 1] == node);
            }
            if visited[node] {
                proof {
                    assert forall|i: int| 0 <= i < roots@.len() implies visited@[#[trigger] roots@[i] as int]
                        || stack@.contains(roots@[i]) by {
                        assert(old_visited[roots@[i] as int] || old_stack.contains(roots@[i]));
                    }
                }
                continue;
            }
            proof {
                lemma_trues_set(visited@, node as int);
                lemma_trues_bound(visited@.update(node as int, true));
            }
            visited.set(node, true);
            count = count + 1;
            let ghost popped = stack@;
            match self.nodes[node] {
                Node::Branch { low, high, .. } => {
                    stack.push(low);
                    stack.push(high);
                    proof {
                        assert(stack@ =~= popped.push(low).push(high));
                        assert(stack@[stack@.len() - 2] == low);
                        assert(stack@[stack@.len() - 1] == high);
                        assert forall|v: usize| popped.contains(v) implies stack@.contains(v) by {
                            let k = choose|k: int| 0 <= k < popped.len() && popped[k] == v;
                            assert(stack@[k] == v);
                        }
                    }
                },
                Node::Terminal(_) => {},
            }
            proof {
                assert forall|s: Set<usize>| #[trigger] closed_from(self.nodes@, roots@, s) implies s.contains(node) by {
                    assert(s.contains(old_stack[old_stack.len() - 1]));
                }
                assert forall|i: int| 0 <= i < roots@.len() implies visited@[#[trigger] roots@[i] as int]
                    || stack@.contains(roots@[i]) by {
                    assert(old_visited[roots@[i] as int] || old_stack.contains(roots@[i]));
                    if old_visited[roots@[i] as int] {
                        assert(visited@[roots@[i] as int]);
                    } else if roots@[i] != node {
                        assert(popped.contains(roots@[i]));
                    }
                }
            }
        }
        proof {
            lemma_trues_bound(visited@);
            let v = marked(visited@);
            let nodes = self.nodes@;
            assert(closed_from(nodes, roots@, v)) by {
                assert forall|i: int| 0 <= i < roots@.len() implies v.contains(#[trigger] roots@[i]) by {
                    assert(visited@[roots@[i] as int] || stack@.contains(roots@[i]));
                }
                assert forall|x: usize| #[trigger] v.contains(x) && x < nodes.len() implies match nodes[x as int] {
                    Node::Branch { low, high, .. } => v.contains(low) && v.contains(high),
                    Node::Terminal(_) => true,
                } by {
                    assert(visited@[x as int]);
                    assert(nodes_ok(nodes));
                    match nodes[x as int] {
                        Node::Branch { low, high, .. } => {
                            assert(low < x && high < x);
                        },
                        Node::Terminal(_) => {},
                    }
                }
            }
            let reach = reachable_nodes(nodes, roots@);
            assert forall|x: usize| reach.contains(x) <==> v.contains(x) by {
                if reach.contains(x) {
                    assert(closed_from(nodes, roots@, v));
                }
                if v.contains(x) {
                    assert forall|s: Set<usize>| #[trigger] closed_from(nodes, roots@, s) implies s.contains(x) by {
                        assert(x < length && visited@[x as int]);
                    }
                }
            }
            assert(reach =~= v);
            lemma_trues_card(visited@);
        }
        count
    }
}

proof fn lemma_trues_zero(s: Seq<bool>)
    requires
        forall|k: int| 0 <= k < s.len() ==> !#[trigger] s[k],
    ensures
        trues(s) == 0,
    decreases s.len(),
{
    if s.len() > 0 {
        lemma_trues_zero(s.drop_last());
    }
}

/// The decision variable of the incoming signal of `family` (column,
/// down-right, down-left) at `column`.
fn input_var(column: usize, family: usize) -> (var: u16)
    requires
        column <= 1000,
        family < 3,
    ensures
        var == 6 * column + family,
{
    (6 * column + family) as u16
}

/// The decision variable of the outgoing signal of `family` at `column`.
fn output_var(column: usize, family: usize) -> (var: u16)
    requires
        column <= 1000,
        family < 3,
    ensures
        var == 6 * column + 3 + family,
{
    (6 * column + 3 + family) as u16
}

/// The legs of the occupied entry of `C`.
fn occupied(legs: VirtualLegs) -> (is_occupied: bool)
    ensures
        is_occupied == (legs == occupied_legs()),
{
    legs.column_in == 0 && legs.column_out == 1 && legs.row_in == 0 && legs.row_out == 1
        && legs.diag_dr_in == 0 && legs.diag_dr_out == 1 && legs.diag_dl_in == 0 && legs.diag_dl_out == 1
}

/// The state of one compilation of the row relation: the memo of suffix
/// diagrams by `(column, row signal)` and the entry counters.
struct RelationBuild {
    n: usize,
    d4_top: bool,
    memo: HashMap<u128, usize>,
    entries_examined: u128,
    entries_accepted: u128,
}

impl RelationBuild {
    /// The diagram of the row from `column` on, entered with row signal
    /// `row_signal`: the sum over the entries of `C` of their cube times the
    /// suffix that follows; at the row's end the signal must be 1. On the
    /// first row (`d4_top`) an occupied site left of the mirror axis counts
    /// twice and one right of it is dropped.
    fn suffix(&mut self, store: &mut AddStore, tensor: &SiteTensorC, column: usize, row_signal: u8) -> (node: Result<
        usize,
        String,
    >)
        requires
            old(store).wf(),
            1 <= old(self).n <= 21,
            column <= old(self).n,
            cache_ok(old(self).memo@, old(store).nodes@.len()),
        ensures
            final(store).wf(),
            extends(final(store).nodes@, old(store).nodes@),
            final(self).n == old(self).n,
            cache_ok(final(self).memo@, final(store).nodes@.len()),
            node matches Ok(id) ==> id < final(store).nodes@.len(),
        decreases old(self).n - column,
    {
        if column == self.n {
            return store.terminal(
                if row_signal == 1 {
                    1
                } else {
                    0
                },
            );
        }
        let key = (column as u128) * 0x100 + row_signal as u128;
        match self.memo.get(&key) {
            Some(id) => {
                return Ok(*id);
            },
            None => {},
        }
        let zero = store.terminal(0)?;
        let mut result = zero;
        let entries = tensor.entries();
        let mut e: usize = 0;
        while e < entries.len()
            invariant
                store.wf(),
                extends(store.nodes@, old(store).nodes@),
                1 <= self.n <= 21,
                self.n == old(self).n,
                column < self.n,
                cache_ok(self.memo@, store.nodes@.len()),
                result < store.nodes@.len(),
                e <= entries@.len(),
                entries@ == sec_vi_c(),
            decreases entries@.len() - e,
        {
            let entry = entries[e];
            e = e + 1;
            self.entries_examined = saturating_increment(self.entries_examined);
            if entry.legs.row_in != row_signal {
                continue;
            }
            let weight: u128 = if self.d4_top && occupied(entry.legs) {
                let mirror = self.n - 1 - column;
                if column > mirror {
                    continue;
                } else if column < mirror {
                    2
                } else {
                    1
                }
            } else {
                1
            };
            self.entries_accepted = saturating_increment(self.entries_accepted);
            let mut assignments: Vec<(u16, u8)> = Vec::new();
            assignments.push((input_var(column, 0), entry.legs.column_in));
            assignments.push((input_var(column, 1), entry.legs.diag_dr_in));
            assignments.push((input_var(column, 2), entry.legs.diag_dl_in));
            assignments.push((output_var(column, 0), entry.legs.column_out));
            if column + 1 < self.n {
                assignments.push((output_var(column + 1, 1), entry.legs.diag_dr_out));
            }
            if column > 0 {
                assignments.push((output_var(column - 1, 2), entry.legs.diag_dl_out));
            }
            let value = match entry.value.checked_mul(weight) {
                Some(v) => v,
                None => {
                    return Err(message("D4 relation weight overflow"));
                },
            };
            let local = store.cube(&assignments, value)?;
            let suffix = self.suffix(store, tensor, column + 1, entry.legs.row_out)?;
            let term = store.mul(local, suffix)?;
            result = store.add(result, term)?;
        }
        self.memo.insert(key, result);
        Ok(result)
    }
}

/// The row relation as a diagram over the input and output variables of one
/// row, with the down-right signal entering at column 0 and the down-left
/// signal entering at the last column fixed to 0; with the counts of tensor
/// entries examined and accepted.
fn build_relation(store: &mut AddStore, n: usize, tensor: &SiteTensorC, d4_top: bool) -> (built: Result<
    (usize, u128, u128),
    String,
>)
    requires
        old(store).wf(),
        1 <= n <= 21,
    ensures
        final(store).wf(),
        extends(final(store).nodes@, old(store).nodes@),
        built matches Ok(b) ==> b.0 < final(store).nodes@.len(),
{
    let mut build = RelationBuild {
        n,
        d4_top,
        memo: HashMap::new(),
        entries_examined: 0,
        entries_accepted: 0,
    };
    let relation = build.suffix(store, tensor, 0, 0)?;
    let mut edges: Vec<(u16, u8)> = Vec::new();
    edges.push((output_var(0, 1), 0));
    edges.push((output_var(n - 1, 2), 0));
    let fixed_edges = store.cube(&edges, 1)?;
    let joined = store.mul(relation, fixed_edges)?;
    Ok((joined, build.entries_examined, build.entries_accepted))
}

/// The size of the boundary diagram after one row.
#[derive(Clone, Debug)]
pub struct DdLayerMetric {
    pub row: usize,
    pub boundary_nodes: usize,
}

/// The count and the diagram statistics of a weighted decision-diagram
/// contraction.
#[derive(Debug)]
pub struct WeightedDdResult {
    pub n: usize,
    pub count: u128,
    pub elapsed: Duration,
    pub peak_rss_bytes: u64,
    pub peak_live_nodes: usize,
    pub peak_boundary_nodes: usize,
    pub peak_relation_nodes: usize,
    pub allocated_nodes: usize,
    pub terminal_count: usize,
    pub tensor_entries_examined: u128,
    pub tensor_entries_accepted: u128,
    pub unique_lookups: u128,
    pub unique_hits: u128,
    pub apply_lookups: u128,
    pub apply_hits: u128,
    pub relprod_lookups: u128,
    pub relprod_hits: u128,
    pub layers: Vec<DdLayerMetric>,
}

/// `a + b`, staying at the largest value.
fn saturating_sum(a: u128, b: u128) -> (sum: u128)
    ensures
        sum == if a + b <= u128::MAX {
            a + b
        } else {
            u128::MAX as int
        },
{
    match a.checked_add(b) {
        Some(v) => v,
        None => u128::MAX,
    }
}

/// The larger of two counts.
fn larger(a: usize, b: usize) -> (m: usize)
    ensures
        m == if a >= b {
            a
        } else {
            b
        },
{
    if a >= b {
        a
    } else {
        b
    }
}

/// Contract the `n x n` lattice row by row with decision diagrams: each row
/// is a relational product of the boundary with the row relation (the first
/// row with the mirror-weighted one), followed by a renaming of the outputs
/// to inputs; the column signals are then required to be 1 and the diagonal
/// signals summed out. Boards up to 21 columns are supported.
pub fn contract_weighted_dd(n: usize) -> (result: Result<WeightedDdResult, String>)
    ensures
        n == 0 ==> (result matches Ok(r) && r.n == 0 && r.count == 1 && r.layers@.len() == 0),
        n > 21 ==> result is Err,
        result matches Ok(r) ==> r.n == n && r.layers@.len() == n && forall|i: int|
            0 <= i < n ==> (#[trigger] r.layers@[i]).row == i,
        result matches Ok(r) ==> r.unique_hits <= r.unique_lookups && r.apply_hits <= r.apply_lookups
            && r.relprod_hits <= r.relprod_lookups,
{
    if n == 0 {
        return Ok(
            WeightedDdResult {
                n,
                count: 1,
                elapsed: zero_duration(),
                peak_rss_bytes: peak_rss_bytes(),
                peak_live_nodes: 1,
                peak_boundary_nodes: 1,
                peak_relation_nodes: 1,
                allocated_nodes: 1,
                terminal_count: 1,
                tensor_entries_examined: 0,
                tensor_entries_accepted: 0,
                unique_lookups: 0,
                unique_hits: 0,
                apply_lookups: 0,
                apply_hits: 0,
                relprod_lookups: 0,
                relprod_hits: 0,
                layers: Vec::new(),
            },
        );
    }
    if n > 21 {
        return Err(message("weighted DD currently supports N<=21 variable indices"));
    }
    let start = now();
    let tensor = SiteTensorC::sec_vi();
    let mut store = AddStore::new();
    let (normal_relation, normal_examined, normal_accepted) = build_relation(&mut store, n, &tensor, false)?;
    let (top_relation, top_examined, top_accepted) = build_relation(&mut store, n, &tensor, true)?;
    let mut initial: Vec<(u16, u8)> = Vec::new();
    let mut column: usize = 0;
    while column < n
        invariant
            column <= n <= 21,
        decreases n - column,
    {
        let mut family: usize = 0;
        while family < 3
            invariant
                family <= 3,
                column < n <= 21,
            decreases 3 - family,
        {
            initial.push((input_var(column, family), 0));
            family = family + 1;
        }
        column = column + 1;
    }
    let mut boundary = store.cube(&initial, 1)?;
    let mut roots: Vec<usize> = Vec::new();
    roots.push(normal_relation);
    let normal_nodes = store.reachable_count(&roots);
    let mut roots: Vec<usize> = Vec::new();
    roots.push(top_relation);
    let top_nodes = store.reachable_count(&roots);
    let peak_relation_nodes = larger(normal_nodes, top_nodes);
    let variables = (6 * n) as u16;
    let mut roots: Vec<usize> = Vec::new();
    roots.push(boundary);
    roots.push(normal_relation);
    roots.push(top_relation);
    let mut peak_live_nodes = store.reachable_count(&roots);
    let mut roots: Vec<usize> = Vec::new();
    roots.push(boundary);
    let mut peak_boundary_nodes = store.reachable_count(&roots);
    let mut layers: Vec<DdLayerMetric> = Vec::new();
    let mut row: usize = 0;
    while row < n
        invariant
            1 <= n <= 21,
            row <= n,
            variables == 6 * n,
            store.wf(),
            boundary < store.nodes@.len(),
            normal_relation < store.nodes@.len(),
            top_relation < store.nodes@.len(),
            layers@.len() == row,
            forall|i: int| 0 <= i < row ==> (#[trigger] layers@[i]).row == i,
        decreases n - row,
    {
        let relation = if row == 0 {
            top_relation
        } else {
            normal_relation
        };
        let output = store.relprod(boundary, relation, 0, variables)?;
        let mut rename_cache: HashMap<u128, usize> = HashMap::new();
        boundary = store.rename_output_to_input(output, &mut rename_cache)?;
        let mut roots: Vec<usize> = Vec::new();
        roots.push(boundary);
        let boundary_nodes = store.reachable_count(&roots);
        peak_boundary_nodes = larger(peak_boundary_nodes, boundary_nodes);
        roots.push(relation);
        let live = store.reachable_count(&roots);
        peak_live_nodes = larger(peak_live_nodes, live);
        layers.push(DdLayerMetric { row, boundary_nodes });
        row = row + 1;
    }
    let mut final_root = boundary;
    let mut restrict_cache: HashMap<u128, usize> = HashMap::new();
    let mut column: usize = 0;
    while column < n
        invariant
            1 <= n <= 21,
            column <= n,
            store.wf(),
            final_root < store.nodes@.len(),
            cache_ok(restrict_cache@, store.nodes@.len()),
            layers@.len() == n,
            forall|i: int| 0 <= i < n ==> (#[trigger] layers@[i]).row == i,
        decreases n - column,
    {
        final_root = store.restrict(final_root, input_var(column, 0), true, &mut restrict_cache)?;
        column = column + 1;
    }
    let mut sum_cache: HashMap<u128, usize> = HashMap::new();
    let mut column: usize = 0;
    while column < n
        invariant
            1 <= n <= 21,
            column <= n,
            store.wf(),
            final_root < store.nodes@.len(),
            cache_ok(sum_cache@, store.nodes@.len()),
            layers@.len() == n,
            forall|i: int| 0 <= i < n ==> (#[trigger] layers@[i]).row == i,
        decreases n - column,
    {
        final_root = store.sum_variable(final_root, input_var(column, 1), &mut sum_cache)?;
        final_root = store.sum_variable(final_root, input_var(column, 2), &mut sum_cache)?;
        column = column + 1;
    }
    let count = match store.nodes[final_root] {
        Node::Terminal(value) => value,
        Node::Branch { .. } => {
            return Err(message("final weighted DD contraction retained virtual variables"));
        },
    };
    Ok(
        WeightedDdResult {
            n,
            count,
            elapsed: elapsed(&start),
            peak_rss_bytes: peak_rss_bytes(),
            peak_live_nodes,
            peak_boundary_nodes,
            peak_relation_nodes,
            allocated_nodes: store.nodes.len(),
            terminal_count: store.terminals.len(),
            tensor_entries_examined: saturating_sum(normal_examined, top_examined),
            tensor_entries_accepted: saturating_sum(normal_accepted, top_accepted),
            unique_lookups: store.unique_lookups,
            unique_hits: store.unique_hits,
            apply_lookups: store.apply_lookups,
            apply_hits: store.apply_hits,
            relprod_lookups: store.relprod_lookups,
            relprod_hits: store.relprod_hits,
            layers,
        },
    )
}

} // verus!
