//! Selection predicates: the AST, the rewrite to disjunctive normal form, and
//! the per-record meaning of a predicate.
use vstd::prelude::*;
use crate::record::{record_tokens, RecordView};

verus! {

/// A comparison operator of a predicate leaf.
#[derive(Debug, Clone, Copy, PartialEq, Eq)]
pub enum Op {
    Eq,
    NEq,
    Gt,
    Lt,
    GtEq,
    LtEq,
}

/// An atom on either side of a predicate leaf. A metric threshold is held as
/// the IEEE-754 bit pattern of a 64-bit float.
#[derive(Debug, Clone, PartialEq, Eq)]
pub enum Type {
    LabelKey(String),
    LabelValue(String),
    Variable(String),
    Metric(u64),
}

/// A predicate leaf `lhs op rhs`.
#[derive(Debug, Clone, PartialEq, Eq)]
pub struct Condition {
    pub lhs: Type,
    pub rhs: Type,
    pub op: Op,
}

/// A predicate tree: leaves joined by binary AND and OR.
#[derive(Debug, PartialEq, Eq)]
pub enum Conditions {
    Leaf(Condition),
    And(Box<Conditions>, Box<Conditions>),
    Or(Box<Conditions>, Box<Conditions>),
}

/// A named predicate tree.
#[derive(Debug, PartialEq, Eq)]
pub struct Predicate {
    pub name: String,
    pub condition: Conditions,
}

/// A named selection statement.
#[derive(Debug, PartialEq, Eq)]
pub struct Select {
    pub name: String,
    pub predicate: Predicate,
}

/// Number of nodes of a tree.
pub open spec fn size(c: Conditions) -> nat
    decreases c,
{
    match c {
        Conditions::Leaf(_) => 1,
        Conditions::And(l, r) => 1 + size(*l) + size(*r),
        Conditions::Or(l, r) => 1 + size(*l) + size(*r),
    }
}

/// The tree holds no OR node.
pub open spec fn all_and(c: Conditions) -> bool
    decreases c,
{
    match c {
        Conditions::Leaf(_) => true,
        Conditions::And(l, r) => all_and(*l) && all_and(*r),
        Conditions::Or(_, _) => false,
    }
}

/// Every OR node of the tree stands above every AND node.
pub open spec fn is_dnf(c: Conditions) -> bool
    decreases c,
{
    match c {
        Conditions::Or(l, r) => is_dnf(*l) && is_dnf(*r),
        _ => all_and(c),
    }
}

pub open spec fn and_of(l: Conditions, r: Conditions) -> Conditions {
    Conditions::And(Box::new(l), Box::new(r))
}

pub open spec fn or_of(l: Conditions, r: Conditions) -> Conditions {
    Conditions::Or(Box::new(l), Box::new(r))
}

/// The conjunction of two trees already in normal form, distributed over
/// their disjunctions: the left one first, and an OR's branch always goes to
/// the left of the AND that it joins.
pub open spec fn distribute(a: Conditions, b: Conditions) -> Conditions
    decreases size(a) + size(b),
{
    match a {
        Conditions::Or(a1, a2) => or_of(distribute(*a1, b), distribute(*a2, b)),
        _ => match b {
            Conditions::Or(b1, b2) => or_of(distribute(*b1, a), distribute(*b2, a)),
            _ => and_of(a, b),
        },
    }
}

/// The disjunctive normal form of a tree. A tree without OR is its own normal
/// form, and an OR is rewritten branch by branch.
pub open spec fn dnf_of(c: Conditions) -> Conditions
    decreases size(c), 1nat,
{
    match c {
        Conditions::Leaf(_) => c,
        Conditions::Or(l, r) => or_of(dnf_of(*l), dnf_of(*r)),
        Conditions::And(l, r) => dnf_and(*l, *r),
    }
}

/// The disjunctive normal form of `And(l, r)`. Without OR it is unchanged;
/// `And(Or(a, b), r)` becomes `Or(And(a, r), And(b, r))`, then
/// `And(l, Or(a, b))` becomes `Or(And(a, l), And(b, l))`, each rewritten in
/// turn; otherwise both children are rewritten first and then distributed.
pub open spec fn dnf_and(l: Conditions, r: Conditions) -> Conditions
    decreases size(l) + size(r) + 1, 0nat,
{
    if all_and(l) && all_and(r) {
        and_of(l, r)
    } else {
        match l {
            Conditions::Or(a, b) => or_of(dnf_and(*a, r), dnf_and(*b, r)),
            _ => match r {
                Conditions::Or(a, b) => or_of(dnf_and(*a, l), dnf_and(*b, l)),
                _ => distribute(dnf_of(l), dnf_of(r)),
            },
        }
    }
}

proof fn lemma_distribute_is_dnf(a: Conditions, b: Conditions)
    requires
        is_dnf(a),
        is_dnf(b),
    ensures
        is_dnf(distribute(a, b)),
    decreases size(a) + size(b),
{
    match a {
        Conditions::Or(a1, a2) => {
            lemma_distribute_is_dnf(*a1, b);
            lemma_distribute_is_dnf(*a2, b);
        },
        _ => match b {
            Conditions::Or(b1, b2) => {
                lemma_distribute_is_dnf(*b1, a);
                lemma_distribute_is_dnf(*b2, a);
            },
            _ => {},
        },
    }
}

proof fn lemma_dnf_of_is_dnf(c: Conditions)
    ensures
        is_dnf(dnf_of(c)),
    decreases size(c), 1nat,
{
    match c {
        Conditions::Leaf(_) => {},
        Conditions::Or(l, r) => {
            lemma_dnf_of_is_dnf(*l);
            lemma_dnf_of_is_dnf(*r);
        },
        Conditions::And(l, r) => lemma_dnf_and_is_dnf(*l, *r),
    }
}

proof fn lemma_dnf_and_is_dnf(l: Conditions, r: Conditions)
    ensures
        is_dnf(dnf_and(l, r)),
    decreases size(l) + size(r) + 1, 0nat,
{
    if all_and(l) && all_and(r) {
    } else {
        match l {
            Conditions::Or(a, b) => {
                lemma_dnf_and_is_dnf(*a, r);
                lemma_dnf_and_is_dnf(*b, r);
            },
            _ => match r {
                Conditions::Or(a, b) => {
                    lemma_dnf_and_is_dnf(*a, l);
                    lemma_dnf_and_is_dnf(*b, l);
                },
                _ => {
                    lemma_dnf_of_is_dnf(l);
                    lemma_dnf_of_is_dnf(r);
                    lemma_distribute_is_dnf(dnf_of(l), dnf_of(r));
                },
            },
        }
    }
}

proof fn lemma_dnf_of_fixes_dnf(c: Conditions)
    requires
        is_dnf(c),
    ensures
        dnf_of(c) == c,
    decreases c,
{
    match c {
        Conditions::Or(l, r) => {
            lemma_dnf_of_fixes_dnf(*l);
            lemma_dnf_of_fixes_dnf(*r);
        },
        Conditions::And(l, r) => {
            assert(all_and(*l) && all_and(*r));
            assert(dnf_of(c) == dnf_and(*l, *r));
            assert(dnf_and(*l, *r) == and_of(*l, *r));
        },
        Conditions::Leaf(_) => {},
    }
}

/// Rewriting to disjunctive normal form is idempotent: the normal form of a
/// normal form is itself.
pub proof fn lemma_dnf_idempotent(c: Conditions)
    ensures
        dnf_of(dnf_of(c)) == dnf_of(c),
        is_dnf(dnf_of(c)),
{
    lemma_dnf_of_is_dnf(c);
    lemma_dnf_of_fixes_dnf(dnf_of(c));
}

/// The bit pattern is a NaN: all exponent bits set and a nonzero fraction.
pub open spec fn is_nan(b: u64) -> bool {
    (b % 0x8000_0000_0000_0000) / 0x10_0000_0000_0000 == 0x7ff && b % 0x10_0000_0000_0000 != 0
}

/// An integer that orders the non-NaN floats as their values do: both zeros
/// map to one point, negatives below it, positives above.
pub open spec fn order_key(b: u64) -> int {
    if b % 0x8000_0000_0000_0000 == 0 {
        0x8000_0000_0000_0000
    } else if b >= 0x8000_0000_0000_0000 {
        u64::MAX - b
    } else {
        b + 0x8000_0000_0000_0000
    }
}

/// The float comparison `a op b` on bit patterns: a NaN compares unequal to
/// everything and is neither less nor greater.
pub open spec fn metric_holds(op: Op, a: u64, b: u64) -> bool {
    if is_nan(a) || is_nan(b) {
        op == Op::NEq
    } else {
        let (ka, kb) = (order_key(a), order_key(b));
        match op {
            Op::Eq => ka == kb,
            Op::NEq => ka != kb,
            Op::Gt => ka > kb,
            Op::Lt => ka < kb,
            Op::GtEq => ka >= kb,
            Op::LtEq => ka <= kb,
        }
    }
}

/// The value of the named variable: the last pair with that name.
pub open spec fn lookup(vs: Seq<(Seq<char>, u64)>, name: Seq<char>) -> Option<u64>
    decreases vs.len(),
{
    if vs.len() == 0 {
        None
    } else if vs.last().0 == name {
        Some(vs.last().1)
    } else {
        lookup(vs.drop_last(), name)
    }
}

/// A leaf holds of a record: `LabelKey(k) Eq LabelValue(v)` where the record
/// has the token `k=v`, `Variable(n) op Metric(t)` where the record has a
/// value for `n` that compares so with `t`. No other leaf holds of any record.
pub open spec fn leaf_holds(c: Condition, r: RecordView) -> bool {
    match (c.lhs, c.rhs) {
        (Type::LabelKey(k), Type::LabelValue(v)) => c.op == Op::Eq && record_tokens(r).contains(
            k@ + seq!['='] + v@,
        ),
        (Type::Variable(n), Type::Metric(t)) => match lookup(r.variables, n@) {
            Some(x) => metric_holds(c.op, x, t),
            None => false,
        },
        _ => false,
    }
}

/// The tree holds of a record.
pub open spec fn holds(c: Conditions, r: RecordView) -> bool
    decreases c,
{
    match c {
        Conditions::Leaf(x) => leaf_holds(x, r),
        Conditions::And(a, b) => holds(*a, r) && holds(*b, r),
        Conditions::Or(a, b) => holds(*a, r) || holds(*b, r),
    }
}

proof fn lemma_distribute_holds(a: Conditions, b: Conditions, r: RecordView)
    ensures
        holds(distribute(a, b), r) == (holds(a, r) && holds(b, r)),
    decreases size(a) + size(b),
{
    match a {
        Conditions::Or(a1, a2) => {
            lemma_distribute_holds(*a1, b, r);
            lemma_distribute_holds(*a2, b, r);
        },
        _ => match b {
            Conditions::Or(b1, b2) => {
                lemma_distribute_holds(*b1, a, r);
                lemma_distribute_holds(*b2, a, r);
            },
            _ => {},
        },
    }
}

proof fn lemma_dnf_of_holds(c: Conditions, r: RecordView)
    ensures
        holds(dnf_of(c), r) == holds(c, r),
    decreases size(c), 1nat,
{
    match c {
        Conditions::Leaf(_) => {},
        Conditions::Or(l, rr) => {
            lemma_dnf_of_holds(*l, r);
            lemma_dnf_of_holds(*rr, r);
        },
        Conditions::And(l, rr) => lemma_dnf_and_holds(*l, *rr, r),
    }
}

proof fn lemma_dnf_and_holds(l: Conditions, rr: Conditions, r: RecordView)
    ensures
        holds(dnf_and(l, rr), r) == (holds(l, r) && holds(rr, r)),
    decreases size(l) + size(rr) + 1, 0nat,
{
    if all_and(l) && all_and(rr) {
    } else {
        match l {
            Conditions::Or(a, b) => {
                lemma_dnf_and_holds(*a, rr, r);
                lemma_dnf_and_holds(*b, rr, r);
            },
            _ => match rr {
                Conditions::Or(a, b) => {
                    lemma_dnf_and_holds(*a, l, r);
                    lemma_dnf_and_holds(*b, l, r);
                },
                _ => {
                    lemma_dnf_of_holds(l, r);
                    lemma_dnf_of_holds(rr, r);
                    lemma_distribute_holds(dnf_of(l), dnf_of(rr), r);
                },
            },
        }
    }
}

/// The normal form holds of exactly the records that the tree holds of.
pub proof fn lemma_dnf_equivalent(c: Conditions)
    ensures
        forall|r: RecordView| #[trigger] holds(dnf_of(c), r) == holds(c, r),
{
    assert forall|r: RecordView| #[trigger] holds(dnf_of(c), r) == holds(c, r) by {
        lemma_dnf_of_holds(c, r);
    }
}

impl Op {
    /// The float comparison `a op b` on bit patterns.
    pub fn compare(&self, a: u64, b: u64) -> (r: bool)
        ensures
            r == metric_holds(*self, a, b),
    {
        if float_is_nan(a) || float_is_nan(b) {
            return matches!(self, Op::NEq);
        }
        let ka = float_order_key(a);
        let kb = float_order_key(b);
        match self {
            Op::Eq => ka == kb,
            Op::NEq => ka != kb,
            Op::Gt => ka > kb,
            Op::Lt => ka < kb,
            Op::GtEq => ka >= kb,
            Op::LtEq => ka <= kb,
        }
    }
}

/// Whether the bit pattern is a NaN.
pub fn float_is_nan(b: u64) -> (r: bool)
    ensures
        r == is_nan(b),
{
    (b % 0x8000_0000_0000_0000) / 0x10_0000_0000_0000 == 0x7ff && b % 0x10_0000_0000_0000 != 0
}

/// The order key of a bit pattern.
pub fn float_order_key(b: u64) -> (r: u64)
    ensures
        r as int == order_key(b),
{
    if b % 0x8000_0000_0000_0000 == 0 {
        0x8000_0000_0000_0000
    } else if b >= 0x8000_0000_0000_0000 {
        u64::MAX - b
    } else {
        b + 0x8000_0000_0000_0000
    }
}

impl Type {
    /// A copy of the atom.
    pub fn duplicate(&self) -> (r: Type)
        ensures
            r == *self,
    {
        match self {
            Type::LabelKey(s) => Type::LabelKey(s.clone()),
            Type::LabelValue(s) => Type::LabelValue(s.clone()),
            Type::Variable(s) => Type::Variable(s.clone()),
            Type::Metric(v) => Type::Metric(*v),
        }
    }

    /// The threshold of a metric atom.
    pub fn extract_metric(&self) -> (r: u64)
        requires
            *self is Metric,
        ensures
            r == self->Metric_0,
    {
        match self {
            Type::Metric(v) => *v,
            _ => 0,
        }
    }

    pub fn is_labelkey(&self) -> (r: bool)
        ensures
            r == (*self is LabelKey),
    {
        matches!(self, Type::LabelKey(_))
    }

    pub fn is_labelvalue(&self) -> (r: bool)
        ensures
            r == (*self is LabelValue),
    {
        matches!(self, Type::LabelValue(_))
    }

    pub fn is_variable(&self) -> (r: bool)
        ensures
            r == (*self is Variable),
    {
        matches!(self, Type::Variable(_))
    }

    pub fn is_metric(&self) -> (r: bool)
        ensures
            r == (*self is Metric),
    {
        matches!(self, Type::Metric(_))
    }
}

impl Condition {
    /// A copy of the leaf.
    pub fn duplicate(&self) -> (r: Condition)
        ensures
            r == *self,
    {
        Condition { lhs: self.lhs.duplicate(), rhs: self.rhs.duplicate(), op: self.op }
    }
}

impl Conditions {
    /// A copy of the tree.
    pub fn duplicate(&self) -> (r: Conditions)
        ensures
            r == *self,
        decreases self,
    {
        match self {
            Conditions::Leaf(c) => Conditions::Leaf(c.duplicate()),
            Conditions::And(l, r) => Conditions::And(
                Box::new((**l).duplicate()),
                Box::new((**r).duplicate()),
            ),
            Conditions::Or(l, r) => Conditions::Or(
                Box::new((**l).duplicate()),
                Box::new((**r).duplicate()),
            ),
        }
    }
}

impl Clone for Conditions {
    fn clone(&self) -> (r: Conditions)
        ensures
            r == *self,
    {
        self.duplicate()
    }
}

impl Clone for Predicate {
    fn clone(&self) -> (r: Predicate)
        ensures
            r == *self,
    {
        Predicate { name: self.name.clone(), condition: self.condition.duplicate() }
    }
}

impl Clone for Select {
    fn clone(&self) -> (r: Select)
        ensures
            r == *self,
    {
        Select { name: self.name.clone(), predicate: self.predicate.clone() }
    }
}

/// Whether the tree is an OR at its root.
pub fn is_or(f: &Conditions) -> (r: bool)
    ensures
        r == (*f is Or),
{
    matches!(f, Conditions::Or(_, _))
}

/// Whether the tree holds no OR node.
pub fn is_all_and(f: &Conditions) -> (r: bool)
    ensures
        r == all_and(*f),
    decreases f,
{
    match f {
        Conditions::Leaf(_) => true,
        Conditions::And(l, r) => is_all_and(l) && is_all_and(r),
        Conditions::Or(_, _) => false,
    }
}

/// The two conjunctions obtained by pushing `x` into both branches of the
/// disjunction `or`: each branch stands to the left of `x`.
pub fn pushdown_disjunction(x: Conditions, or: Conditions) -> (r: (Conditions, Conditions))
    requires
        or is Or,
    ensures
        r.0 == and_of(*or->Or_0, x),
        r.1 == and_of(*or->Or_1, x),
{
    match or {
        Conditions::Or(orl, orr) => {
            let x2 = x.duplicate();
            (Conditions::And(orl, Box::new(x)), Conditions::And(orr, Box::new(x2)))
        },
        _ => (x.duplicate(), x),
    }
}

/// The conjunction of two normal forms, distributed over their disjunctions.
fn distribute_exec(a: Conditions, b: Conditions) -> (r: Conditions)
    ensures
        r == distribute(a, b),
    decreases size(a) + size(b),
{
    match a {
        Conditions::Or(a1, a2) => {
            let b2 = b.duplicate();
            Conditions::Or(
                Box::new(distribute_exec(*a1, b)),
                Box::new(distribute_exec(*a2, b2)),
            )
        },
        a => match b {
            Conditions::Or(b1, b2) => {
                let a2 = a.duplicate();
                Conditions::Or(
                    Box::new(distribute_exec(*b1, a)),
                    Box::new(distribute_exec(*b2, a2)),
                )
            },
            b => Conditions::And(Box::new(a), Box::new(b)),
        },
    }
}

/// Rewrites a tree to disjunctive normal form.
pub fn dnf_helper(f: Conditions) -> (r: Conditions)
    ensures
        r == dnf_of(f),
    decreases size(f), 1nat,
{
    match f {
        Conditions::Leaf(c) => Conditions::Leaf(c),
        Conditions::Or(l, r) => Conditions::Or(Box::new(dnf_helper(*l)), Box::new(dnf_helper(*r))),
        Conditions::And(l, r) => dnf_conjunction(*l, *r),
    }
}

/// Rewrites `And(l, r)` to disjunctive normal form.
fn dnf_conjunction(l: Conditions, r: Conditions) -> (res: Conditions)
    ensures
        res == dnf_and(l, r),
    decreases size(l) + size(r) + 1, 0nat,
{
    if is_all_and(&l) && is_all_and(&r) {
        Conditions::And(Box::new(l), Box::new(r))
    } else if is_or(&l) {
        let (lp, rp) = pushdown_disjunction(r, l);
        match (lp, rp) {
            (Conditions::And(a, x), Conditions::And(b, y)) => Conditions::Or(
                Box::new(dnf_conjunction(*a, *x)),
                Box::new(dnf_conjunction(*b, *y)),
            ),
            (lp, _) => lp,
        }
    } else if is_or(&r) {
        let (lp, rp) = pushdown_disjunction(l, r);
        match (lp, rp) {
            (Conditions::And(a, x), Conditions::And(b, y)) => Conditions::Or(
                Box::new(dnf_conjunction(*a, *x)),
                Box::new(dnf_conjunction(*b, *y)),
            ),
            (lp, _) => lp,
        }
    } else {
        distribute_exec(dnf_helper(l), dnf_helper(r))
    }
}

/// Rewrites the statement's predicate to disjunctive normal form, keeping
/// both names.
pub fn dnf(s: Select) -> (r: Select)
    ensures
        r.name == s.name,
        r.predicate.name == s.predicate.name,
        r.predicate.condition == dnf_of(s.predicate.condition),
{
    let Select { name, predicate } = s;
    let Predicate { name: pname, condition } = predicate;
    Select { name, predicate: Predicate { name: pname, condition: dnf_helper(condition) } }
}

} // verus!
