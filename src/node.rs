//! The compiled condition of a rule: a tree over selection names, and its
//! value on a record, given which selections the record satisfies.
use vstd::prelude::*;

use crate::expand::string_views;

verus! {

/// A compiled condition.
#[derive(Debug)]
pub enum ConditionNode {
    /// The named selection is satisfied.
    Reference(String),
    /// Every child holds.
    And(Vec<ConditionNode>),
    /// Some child holds.
    Or(Vec<ConditionNode>),
    /// The child does not hold.
    Not(Box<ConditionNode>),
}

impl ConditionNode {
    /// The value of the condition when exactly the selections named in
    /// `sat` are satisfied.
    pub open spec fn eval(&self, sat: Seq<Seq<char>>) -> bool
        decreases self,
    {
        match self {
            ConditionNode::Reference(name) => sat.contains(name@),
            ConditionNode::And(v) => forall|i: int|
                0 <= i < v@.len() ==> (#[trigger] v@[i]).eval(sat),
            ConditionNode::Or(v) => exists|i: int| 0 <= i < v@.len() && (#[trigger] v@[i]).eval(sat),
            ConditionNode::Not(c) => !c.eval(sat),
        }
    }

    /// The children of an `and` or `or` node; empty for other nodes.
    pub open spec fn children(&self) -> Seq<ConditionNode> {
        match self {
            ConditionNode::And(v) => v@,
            ConditionNode::Or(v) => v@,
            _ => Seq::empty(),
        }
    }

    /// Every name that the condition refers to is one of `names`.
    pub open spec fn refs_within(&self, names: Seq<Seq<char>>) -> bool
        decreases self,
    {
        match self {
            ConditionNode::Reference(name) => names.contains(name@),
            ConditionNode::And(v) => forall|i: int|
                0 <= i < v@.len() ==> (#[trigger] v@[i]).refs_within(names),
            ConditionNode::Or(v) => forall|i: int|
                0 <= i < v@.len() ==> (#[trigger] v@[i]).refs_within(names),
            ConditionNode::Not(c) => c.refs_within(names),
        }
    }

    /// Evaluates the condition when exactly the selections named in
    /// `satisfied` hold; `and` and `or` stop at the first child that
    /// decides.
    #[verifier::loop_isolation(false)]
    pub fn evaluate(&self, satisfied: &Vec<String>) -> (r: bool)
        ensures
            r == self.eval(string_views(satisfied@)),
        decreases self,
    {
        broadcast use vstd::std_specs::vec::axiom_vec_index_decreases;

        let ghost sat = string_views(satisfied@);
        match self {
            ConditionNode::Reference(name) => {
                let mut i: usize = 0;
                while i < satisfied.len()
                    invariant
                        i <= satisfied@.len(),
                        sat == string_views(satisfied@),
                        forall|k: int| 0 <= k < i ==> sat[k] != name@,
                    decreases satisfied@.len() - i,
                {
                    if satisfied[i] == *name {
                        assert(sat[i as int] == name@);
                        return true;
                    }
                    i += 1;
                }
                false
            },
            ConditionNode::And(v) => {
                let mut i: usize = 0;
                while i < v.len()
                    invariant
                        i <= v@.len(),
                        sat == string_views(satisfied@),
                        forall|k: int| 0 <= k < i ==> (#[trigger] v@[k]).eval(sat),
                    decreases v@.len() - i,
                {
                    assert(decreases_to!(v => v[i as int]));
                    if !v[i].evaluate(satisfied) {
                        return false;
                    }
                    i += 1;
                }
                true
            },
            ConditionNode::Or(v) => {
                let mut i: usize = 0;
                while i < v.len()
                    invariant
                        i <= v@.len(),
                        sat == string_views(satisfied@),
                        forall|k: int| 0 <= k < i ==> !(#[trigger] v@[k]).eval(sat),
                    decreases v@.len() - i,
                {
                    assert(decreases_to!(v => v[i as int]));
                    if v[i].evaluate(satisfied) {
                        return true;
                    }
                    i += 1;
                }
                false
            },
            ConditionNode::Not(c) => !c.evaluate(satisfied),
        }
    }
}

/// Negation: a `not` node holds exactly when its child does not.
pub proof fn lemma_not_negates(c: ConditionNode, sat: Seq<Seq<char>>)
    ensures
        ConditionNode::Not(Box::new(c)).eval(sat) == !c.eval(sat),
{
}

/// Conjunction: a node `a and b` holds exactly when both `a` and `b` hold.
pub proof fn lemma_and_pair(n: ConditionNode, a: ConditionNode, b: ConditionNode, sat: Seq<Seq<char>>)
    requires
        n matches ConditionNode::And(v) && v@ == seq![a, b],
    ensures
        n.eval(sat) == (a.eval(sat) && b.eval(sat)),
{
    broadcast use vstd::std_specs::vec::axiom_vec_index_decreases;

    if let ConditionNode::And(v) = n {
        assert(v@[0] == a && v@[1] == b);
        if a.eval(sat) && b.eval(sat) {
            assert forall|i: int| 0 <= i < v@.len() implies (#[trigger] v@[i]).eval(sat) by {
                if i == 0 {
                } else {
                    assert(i == 1);
                }
            }
        }
    }
}

/// Disjunction: a node `a or b` holds exactly when `a` or `b` holds.
pub proof fn lemma_or_pair(n: ConditionNode, a: ConditionNode, b: ConditionNode, sat: Seq<Seq<char>>)
    requires
        n matches ConditionNode::Or(v) && v@ == seq![a, b],
    ensures
        n.eval(sat) == (a.eval(sat) || b.eval(sat)),
{
    broadcast use vstd::std_specs::vec::axiom_vec_index_decreases;

    if let ConditionNode::Or(v) = n {
        assert(v@[0] == a && v@[1] == b);
        if n.eval(sat) {
            let i = choose|i: int| 0 <= i < v@.len() && (#[trigger] v@[i]).eval(sat);
            assert(i == 0 || i == 1);
        }
        if a.eval(sat) {
            assert(v@[0].eval(sat));
        }
        if b.eval(sat) {
            assert(v@[1].eval(sat));
        }
    }
}

/// A node that ands references to the names `m` holds exactly when every
/// one of them is satisfied; one that ors them, when some one is.
pub proof fn lemma_group_of_references(n: ConditionNode, m: Seq<Seq<char>>, sat: Seq<Seq<char>>)
    requires
        n is And || n is Or,
        n.children().len() == m.len(),
        forall|i: int|
            0 <= i < m.len() ==> (#[trigger] n.children()[i]) is Reference
                && n.children()[i]->Reference_0@ == m[i],
    ensures
        n is And ==> (n.eval(sat) <==> forall|i: int| 0 <= i < m.len() ==> sat.contains(#[trigger] m[i])),
        n is Or ==> (n.eval(sat) <==> exists|i: int| 0 <= i < m.len() && sat.contains(#[trigger] m[i])),
{
    broadcast use vstd::std_specs::vec::axiom_vec_index_decreases;

    match n {
        ConditionNode::And(v) => {
            assert(n.children() == v@);
            assert forall|i: int| 0 <= i < m.len() implies (#[trigger] v@[i]).eval(sat) == sat.contains(m[i]) by {
                let x = v@[i];
                if let ConditionNode::Reference(name) = x {
                    assert(x.eval(sat) == sat.contains(name@));
                }
            }
            if forall|i: int| 0 <= i < m.len() ==> sat.contains(#[trigger] m[i]) {
                assert forall|i: int| 0 <= i < v@.len() implies (#[trigger] v@[i]).eval(sat) by {
                    assert(sat.contains(m[i]));
                }
            }
            if n.eval(sat) {
                assert forall|i: int| 0 <= i < m.len() implies sat.contains(#[trigger] m[i]) by {
                    assert(v@[i].eval(sat));
                }
            }
        },
        ConditionNode::Or(v) => {
            assert(n.children() == v@);
            assert forall|i: int| 0 <= i < m.len() implies (#[trigger] v@[i]).eval(sat) == sat.contains(m[i]) by {
                let x = v@[i];
                if let ConditionNode::Reference(name) = x {
                    assert(x.eval(sat) == sat.contains(name@));
                }
            }
            if exists|i: int| 0 <= i < m.len() && sat.contains(#[trigger] m[i]) {
                let i = choose|i: int| 0 <= i < m.len() && sat.contains(#[trigger] m[i]);
                assert(v@[i].eval(sat));
            }
            if n.eval(sat) {
                let i = choose|i: int| 0 <= i < v@.len() && (#[trigger] v@[i]).eval(sat);
                assert(sat.contains(m[i]));
            }
        },
        _ => {},
    }
}

} // verus!
