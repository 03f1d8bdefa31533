use tsdb::predicate::{dnf_helper, Condition, Conditions, Op, Type};

#[test]
fn test_leaf() {
    let x = Condition {
        lhs: Type::LabelKey(String::from("X")),
        rhs: Type::LabelValue(String::from("X")),
        op: Op::Eq,
    };
    let leaf = Conditions::Leaf(x);
    assert_eq!(leaf.clone(), dnf_helper(leaf));
}

#[test]
fn test_unit_and() {
    let x = Condition {
        lhs: Type::LabelKey(String::from("X")),
        rhs: Type::LabelValue(String::from("X")),
        op: Op::Eq,
    };
    let y = Condition {
        lhs: Type::LabelKey(String::from("Y")),
        rhs: Type::LabelValue(String::from("Y")),
        op: Op::Eq,
    };
    let cond = Conditions::And(Box::new(Conditions::Leaf(x)), Box::new(Conditions::Leaf(y)));
    assert_eq!(cond.clone(), dnf_helper(cond));
}

#[test]
fn test_unit_or() {
    let x = Condition {
        lhs: Type::LabelKey(String::from("X")),
        rhs: Type::LabelValue(String::from("X")),
        op: Op::Eq,
    };
    let y = Condition {
        lhs: Type::LabelKey(String::from("Y")),
        rhs: Type::LabelValue(String::from("Y")),
        op: Op::Eq,
    };
    let cond = Conditions::Or(Box::new(Conditions::Leaf(x)), Box::new(Conditions::Leaf(y)));
    assert_eq!(cond.clone(), dnf_helper(cond));
}

#[test]
fn test_nested_ands() {
    let a = Condition {
        lhs: Type::LabelKey(String::from("A")),
        rhs: Type::LabelValue(String::from("A")),
        op: Op::Eq,
    };
    let b = Condition {
        lhs: Type::LabelKey(String::from("B")),
        rhs: Type::LabelValue(String::from("B")),
        op: Op::Eq,
    };
    let c = Condition {
        lhs: Type::LabelKey(String::from("C")),
        rhs: Type::LabelValue(String::from("C")),
        op: Op::Eq,
    };
    let d = Condition {
        lhs: Type::LabelKey(String::from("D")),
        rhs: Type::LabelValue(String::from("D")),
        op: Op::Eq,
    };
    let e = Condition {
        lhs: Type::LabelKey(String::from("E")),
        rhs: Type::LabelValue(String::from("E")),
        op: Op::Eq,
    };
    let f = Condition {
        lhs: Type::LabelKey(String::from("F")),
        rhs: Type::LabelValue(String::from("F")),
        op: Op::Eq,
    };

    let and1 = Conditions::And(Box::new(Conditions::Leaf(a)), Box::new(Conditions::Leaf(b)));
    let and2 = Conditions::And(Box::new(Conditions::Leaf(c)), Box::new(Conditions::Leaf(d)));
    let and3 = Conditions::And(Box::new(Conditions::Leaf(e)), Box::new(Conditions::Leaf(f)));

    let and12 = Conditions::And(Box::new(and1), Box::new(and2));
    let and123 = Conditions::And(Box::new(and12), Box::new(and3));

    assert_eq!(and123.clone(), dnf_helper(and123));
}

#[test]
fn test_nested_ors() {
    let a = Condition {
        lhs: Type::LabelKey(String::from("A")),
        rhs: Type::LabelValue(String::from("A")),
        op: Op::Eq,
    };
    let b = Condition {
        lhs: Type::LabelKey(String::from("B")),
        rhs: Type::LabelValue(String::from("B")),
        op: Op::Eq,
    };
    let c = Condition {
        lhs: Type::LabelKey(String::from("C")),
        rhs: Type::LabelValue(String::from("C")),
        op: Op::Eq,
    };
    let d = Condition {
        lhs: Type::LabelKey(String::from("D")),
        rhs: Type::LabelValue(String::from("D")),
        op: Op::Eq,
    };
    let e = Condition {
        lhs: Type::LabelKey(String::from("E")),
        rhs: Type::LabelValue(String::from("E")),
        op: Op::Eq,
    };
    let f = Condition {
        lhs: Type::LabelKey(String::from("F")),
        rhs: Type::LabelValue(String::from("F")),
        op: Op::Eq,
    };

    let or1 = Conditions::Or(Box::new(Conditions::Leaf(a)), Box::new(Conditions::Leaf(b)));
    let or2 = Conditions::Or(Box::new(Conditions::Leaf(c)), Box::new(Conditions::Leaf(d)));
    let or3 = Conditions::Or(Box::new(Conditions::Leaf(e)), Box::new(Conditions::Leaf(f)));

    let or12 = Conditions::Or(Box::new(or1), Box::new(or2));
    let or123 = Conditions::Or(Box::new(or12), Box::new(or3));

    assert_eq!(or123.clone(), dnf_helper(or123));
}

#[test]
fn test_one_and_or() {
    let a = Condition {
        lhs: Type::LabelKey(String::from("A")),
        rhs: Type::LabelValue(String::from("A")),
        op: Op::Eq,
    };
    let b = Condition {
        lhs: Type::LabelKey(String::from("B")),
        rhs: Type::LabelValue(String::from("B")),
        op: Op::Eq,
    };
    let c = Condition {
        lhs: Type::LabelKey(String::from("C")),
        rhs: Type::LabelValue(String::from("C")),
        op: Op::Eq,
    };

    let or = Conditions::Or(
        Box::new(Conditions::Leaf(a.clone())),
        Box::new(Conditions::Leaf(b.clone())),
    );
    let cond = Conditions::And(Box::new(or), Box::new(Conditions::Leaf(c.clone())));

    let and1 = Conditions::And(
        Box::new(Conditions::Leaf(a.clone())),
        Box::new(Conditions::Leaf(c.clone())),
    );
    let and2 = Conditions::And(
        Box::new(Conditions::Leaf(b.clone())),
        Box::new(Conditions::Leaf(c.clone())),
    );
    let res = Conditions::Or(Box::new(and1), Box::new(and2));

    assert_eq!(res, dnf_helper(cond));
}

#[test]
fn test_two_and_or() {
    let a = Condition {
        lhs: Type::LabelKey(String::from("A")),
        rhs: Type::LabelValue(String::from("A")),
        op: Op::Eq,
    };
    let b = Condition {
        lhs: Type::LabelKey(String::from("B")),
        rhs: Type::LabelValue(String::from("B")),
        op: Op::Eq,
    };
    let c = Condition {
        lhs: Type::LabelKey(String::from("C")),
        rhs: Type::LabelValue(String::from("C")),
        op: Op::Eq,
    };
    let d = Condition {
        lhs: Type::LabelKey(String::from("D")),
        rhs: Type::LabelValue(String::from("D")),
        op: Op::Eq,
    };

    let or1 = Conditions::Or(
        Box::new(Conditions::Leaf(a.clone())),
        Box::new(Conditions::Leaf(b.clone())),
    );
    let or2 = Conditions::Or(
        Box::new(Conditions::Leaf(c.clone())),
        Box::new(Conditions::Leaf(d.clone())),
    );
    let cond = Conditions::And(Box::new(or1), Box::new(or2));

    let and1 = Conditions::And(
        Box::new(Conditions::Leaf(c.clone())),
        Box::new(Conditions::Leaf(a.clone())),
    );
    let and2 = Conditions::And(
        Box::new(Conditions::Leaf(d.clone())),
        Box::new(Conditions::Leaf(a.clone())),
    );
    let and3 = Conditions::And(
        Box::new(Conditions::Leaf(c.clone())),
        Box::new(Conditions::Leaf(b.clone())),
    );
    let and4 = Conditions::And(
        Box::new(Conditions::Leaf(d.clone())),
        Box::new(Conditions::Leaf(b.clone())),
    );
    let res = Conditions::Or(
        Box::new(Conditions::Or(Box::new(and1), Box::new(and2))),
        Box::new(Conditions::Or(Box::new(and3), Box::new(and4))),
    );

    assert_eq!(res, dnf_helper(cond));
}

#[test]
fn test_deep_or() {
    let a = Condition {
        lhs: Type::LabelKey(String::from("A")),
        rhs: Type::LabelValue(String::from("A")),
        op: Op::Eq,
    };
    let b = Condition {
        lhs: Type::LabelKey(String::from("B")),
        rhs: Type::LabelValue(String::from("B")),
        op: Op::Eq,
    };
    let c = Condition {
        lhs: Type::LabelKey(String::from("C")),
        rhs: Type::LabelValue(String::from("C")),
        op: Op::Eq,
    };
    let d = Condition {
        lhs: Type::LabelKey(String::from("D")),
        rhs: Type::LabelValue(String::from("D")),
        op: Op::Eq,
    };
    let e = Condition {
        lhs: Type::LabelKey(String::from("E")),
        rhs: Type::LabelValue(String::from("E")),
        op: Op::Eq,
    };
    let f = Condition {
        lhs: Type::LabelKey(String::from("F")),
        rhs: Type::LabelValue(String::from("F")),
        op: Op::Eq,
    };

    let or1 = Conditions::Or(Box::new(Conditions::Leaf(a)), Box::new(Conditions::Leaf(b)));
    let and2 = Conditions::And(Box::new(Conditions::Leaf(c)), Box::new(Conditions::Leaf(d)));
    let and3 = Conditions::And(Box::new(Conditions::Leaf(e)), Box::new(Conditions::Leaf(f)));

    let and12 = Conditions::And(Box::new(or1), Box::new(and2));
    let _and123 = Conditions::And(Box::new(and12), Box::new(and3));
}

#[test]
fn test_deep_and() {
    let a = Condition {
        lhs: Type::LabelKey(String::from("A")),
        rhs: Type::LabelValue(String::from("A")),
        op: Op::Eq,
    };
    let b = Condition {
        lhs: Type::LabelKey(String::from("B")),
        rhs: Type::LabelValue(String::from("B")),
        op: Op::Eq,
    };
    let c = Condition {
        lhs: Type::LabelKey(String::from("C")),
        rhs: Type::LabelValue(String::from("C")),
        op: Op::Eq,
    };
    let d = Condition {
        lhs: Type::LabelKey(String::from("D")),
        rhs: Type::LabelValue(String::from("D")),
        op: Op::Eq,
    };
    let e = Condition {
        lhs: Type::LabelKey(String::from("E")),
        rhs: Type::LabelValue(String::from("E")),
        op: Op::Eq,
    };
    let f = Condition {
        lhs: Type::LabelKey(String::from("F")),
        rhs: Type::LabelValue(String::from("F")),
        op: Op::Eq,
    };

    let and1 = Conditions::And(Box::new(Conditions::Leaf(a)), Box::new(Conditions::Leaf(b)));
    let or2 = Conditions::Or(Box::new(Conditions::Leaf(c)), Box::new(Conditions::Leaf(d)));
    let or3 = Conditions::Or(Box::new(Conditions::Leaf(e)), Box::new(Conditions::Leaf(f)));

    let or12 = Conditions::Or(Box::new(and1), Box::new(or2));
    let _or123 = Conditions::Or(Box::new(or12), Box::new(or3));
}
