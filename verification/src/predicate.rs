//! Conditions over feature names that gate an artifact.

use vstd::prelude::*;
use vstd::string::*;
use crate::text::{has_text, same_members, texts};

verus! {

/// A condition over feature names, as a tree.
#[derive(Debug)]
pub enum Predicate {
    /// Holds when the named feature is enabled.
    Atom(String),
    /// Holds when the inner condition does not.
    Not(Box<Predicate>),
    /// Holds when both conditions hold.
    And(Box<Predicate>, Box<Predicate>),
    /// Holds when either condition holds.
    Or(Box<Predicate>, Box<Predicate>),
}

/// The mathematical form of a [`Predicate`].
pub enum Gate {
    Atom(Seq<char>),
    Not(Box<Gate>),
    And(Box<Gate>, Box<Gate>),
    Or(Box<Gate>, Box<Gate>),
}

impl Gate {
    /// Whether the condition holds when exactly the names in `enabled` are on.
    pub open spec fn holds(self, enabled: Seq<Seq<char>>) -> bool
        decreases self,
    {
        match self {
            Gate::Atom(name) => enabled.contains(name),
            Gate::Not(inner) => !inner.holds(enabled),
            Gate::And(left, right) => left.holds(enabled) && right.holds(enabled),
            Gate::Or(left, right) => left.holds(enabled) || right.holds(enabled),
        }
    }
}

/// Whether an optional condition holds; an absent one always does.
pub open spec fn gate_open(gate: Option<Gate>, enabled: Seq<Seq<char>>) -> bool {
    match gate {
        Some(g) => g.holds(enabled),
        None => true,
    }
}

impl Predicate {
    /// The mathematical form of this condition.
    pub open spec fn form(&self) -> Gate
        decreases self,
    {
        match self {
            Predicate::Atom(name) => Gate::Atom(name@),
            Predicate::Not(inner) => Gate::Not(Box::new(inner.form())),
            Predicate::And(left, right) => Gate::And(
                Box::new(left.form()),
                Box::new(right.form()),
            ),
            Predicate::Or(left, right) => Gate::Or(Box::new(left.form()), Box::new(right.form())),
        }
    }
}

impl View for Predicate {
    type V = Gate;

    open spec fn view(&self) -> Gate {
        self.form()
    }
}

/// The form of an optional condition.
pub open spec fn gate_of(p: Option<Predicate>) -> Option<Gate> {
    match p {
        Some(inner) => Some(inner@),
        None => None,
    }
}

impl Predicate {
    /// A condition on one feature.
    pub fn atom(name: &str) -> (r: Predicate)
        ensures
            r@ == Gate::Atom(name@),
    {
        Predicate::Atom(String::from_str(name))
    }

    /// The negation of a condition.
    pub fn negate(inner: Predicate) -> (r: Predicate)
        ensures
            r@ == Gate::Not(Box::new(inner@)),
    {
        Predicate::Not(Box::new(inner))
    }

    /// The conjunction of two conditions.
    pub fn both(left: Predicate, right: Predicate) -> (r: Predicate)
        ensures
            r@ == Gate::And(Box::new(left@), Box::new(right@)),
    {
        Predicate::And(Box::new(left), Box::new(right))
    }

    /// The disjunction of two conditions.
    pub fn either(left: Predicate, right: Predicate) -> (r: Predicate)
        ensures
            r@ == Gate::Or(Box::new(left@), Box::new(right@)),
    {
        Predicate::Or(Box::new(left), Box::new(right))
    }

    /// Evaluates the condition against the enabled features.
    pub fn eval(&self, enabled: &Vec<String>) -> (r: bool)
        ensures
            r == self@.holds(texts(enabled@)),
        decreases self,
    {
        match self {
            Predicate::Atom(name) => has_text(enabled, name.as_str()),
            Predicate::Not(inner) => !inner.eval(enabled),
            Predicate::And(left, right) => left.eval(enabled) && right.eval(enabled),
            Predicate::Or(left, right) => left.eval(enabled) || right.eval(enabled),
        }
    }

    /// A copy of the condition.
    pub fn duplicate(&self) -> (r: Predicate)
        ensures
            r@ == self@,
        decreases self,
    {
        match self {
            Predicate::Atom(name) => Predicate::Atom(name.clone()),
            Predicate::Not(inner) => Predicate::Not(Box::new(inner.duplicate())),
            Predicate::And(left, right) => Predicate::And(
                Box::new(left.duplicate()),
                Box::new(right.duplicate()),
            ),
            Predicate::Or(left, right) => Predicate::Or(
                Box::new(left.duplicate()),
                Box::new(right.duplicate()),
            ),
        }
    }
}

/// Evaluates an optional condition; an absent one always holds.
pub fn gate_passes(gate: &Option<Predicate>, enabled: &Vec<String>) -> (r: bool)
    ensures
        r == gate_open(gate_of(*gate), texts(enabled@)),
{
    match gate {
        Some(p) => p.eval(enabled),
        None => true,
    }
}

/// A condition looks only at which names are enabled, not at their order or
/// at how often each is listed.
pub proof fn lemma_holds_by_membership(g: Gate, a: Seq<Seq<char>>, b: Seq<Seq<char>>)
    requires
        same_members(a, b),
    ensures
        g.holds(a) == g.holds(b),
    decreases g,
{
    match g {
        Gate::Atom(name) => {},
        Gate::Not(inner) => {
            lemma_holds_by_membership(*inner, a, b);
        },
        Gate::And(left, right) => {
            lemma_holds_by_membership(*left, a, b);
            lemma_holds_by_membership(*right, a, b);
        },
        Gate::Or(left, right) => {
            lemma_holds_by_membership(*left, a, b);
            lemma_holds_by_membership(*right, a, b);
        },
    }
}

} // verus!
