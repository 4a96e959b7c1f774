//! Tests for the hash equi-join operator and the predicate operators.

use hash::common::CrustyError;
use hash::common::OpIterator;
use hash::common::PredicateOp;
use hash::hash::Field;
use hash::hash::HashFunction;
use hash::hash::HashScheme;
use hash::join::HashEqJoin;
use hash::join::JoinPredicate;

/// Creates a Vec of (StringField, StringField) given a Vec of (&str, &str)'s.
fn create_vec_tuple(tuple_data: Vec<(&str, &str)>) -> Vec<(Field, Field)> {
    let mut tuples = Vec::new();
    for item in &tuple_data {
        let fields = (
            Field::StringField((*item.0).parse().unwrap()),
            Field::StringField((*item.1).parse().unwrap()),
        );
        tuples.push(fields);
    }
    tuples
}

#[test]
fn t_new() {
    let l_child = create_vec_tuple(vec![
        ("CS", "Adam"),
        ("CS", "Ben"),
        ("CS", "Chris"),
        ("CS", "David"),
    ]);
    let r_child = create_vec_tuple(vec![
        ("CS", "Adam"),
        ("CS", "Ben"),
        ("CS", "Eva"),
        ("CS", "Fordham"),
    ]);
    let b_number = 2 as usize;
    let b_size = 10 as usize;
    let h_e_join = HashEqJoin::new(l_child, r_child, b_number, b_size);
    assert_eq!(h_e_join.opened, false);
    assert_eq!(h_e_join.left_child.len(), 4);
    assert_eq!(h_e_join.right_child.len(), 4);
}

#[test]
fn aggregation_t_new() {
    let l_child = create_vec_tuple(vec![
        ("CS", "Adam"),
        ("CS", "Ben"),
        ("CS", "Chris"),
        ("CS", "David"),
    ]);
    let r_child = create_vec_tuple(vec![
        ("CS", "Adam"),
        ("CS", "Ben"),
        ("CS", "Eva"),
        ("CS", "Fordham"),
    ]);
    let h_e_join = hash::aggregation::HashEqJoin::new(l_child, r_child, 2, 10);
    assert_eq!(h_e_join.opened, false);
    assert_eq!(h_e_join.left_child.len(), 4);
    assert_eq!(h_e_join.right_child.len(), 4);
}

#[test]
fn t_join() {
    let l_child = create_vec_tuple(vec![
        ("CS", "Adam"),
        ("CS", "Ben"),
        ("CS", "Chris"),
        ("CS", "David"),
    ]);
    let r_child = create_vec_tuple(vec![
        ("CS", "Adam"),
        ("CS", "Ben"),
        ("CS", "Eva"),
        ("CS", "Fordham"),
    ]);
    let b_number = 2 as usize;
    let b_size = 10 as usize;
    let mut h_e_join = HashEqJoin::new(l_child, r_child, b_number, b_size);
    let res_farm = h_e_join
        .join(HashFunction::FarmHash, HashScheme::LinearProbe)
        .unwrap();
    let res_murmur = h_e_join
        .join(HashFunction::MurmurHash3, HashScheme::LinearProbe)
        .unwrap();
    let res_std = h_e_join
        .join(HashFunction::StdHash, HashScheme::LinearProbe)
        .unwrap();
    let res_t1ha = h_e_join
        .join(HashFunction::T1haHash, HashScheme::LinearProbe)
        .unwrap();
    let dep = Field::StringField(String::from("CS"));
    let expected = vec![
        (dep.clone(), Field::StringField(String::from("Adam"))),
        (dep.clone(), Field::StringField(String::from("Ben"))),
    ];
    assert_eq!(res_farm, expected);
    assert_eq!(res_murmur, expected);
    assert_eq!(res_std, expected);
    assert_eq!(res_t1ha, expected);
}

fn join_with(function: HashFunction, scheme: HashScheme) -> Vec<(Field, Field)> {
    let l_child = create_vec_tuple(vec![
        ("CS", "Adam"),
        ("CS", "Ben"),
        ("CS", "Chris"),
        ("CS", "David"),
    ]);
    let r_child = create_vec_tuple(vec![
        ("CS", "Adam"),
        ("CS", "Ben"),
        ("CS", "Chris"),
        ("CS", "Eva"),
        ("CS", "Fordham"),
    ]);
    let b_number = 2 as usize;
    let b_size = 10 as usize;
    let mut h_e_join = HashEqJoin::new(l_child, r_child, b_number, b_size);
    h_e_join.join(function, scheme).unwrap()
}

#[test]
fn t_join_farm() {
    let res_farm = join_with(HashFunction::FarmHash, HashScheme::LinearProbe);
    let dep = Field::StringField(String::from("CS"));
    assert_eq!(res_farm.len(), 3);
    assert_eq!(
        res_farm[0],
        (dep.clone(), Field::StringField(String::from("Adam")))
    );
    assert_eq!(
        res_farm[1],
        (dep.clone(), Field::StringField(String::from("Ben")))
    );
    assert_eq!(
        res_farm[2],
        (dep.clone(), Field::StringField(String::from("Chris")))
    );
}

#[test]
fn t_join_murmur3() {
    let res_murmur = join_with(HashFunction::MurmurHash3, HashScheme::LinearProbe);
    let dep = Field::StringField(String::from("CS"));
    assert_eq!(res_murmur.len(), 3);
    assert_eq!(
        res_murmur[0],
        (dep.clone(), Field::StringField(String::from("Adam")))
    );
    assert_eq!(
        res_murmur[1],
        (dep.clone(), Field::StringField(String::from("Ben")))
    );
    assert_eq!(
        res_murmur[2],
        (dep.clone(), Field::StringField(String::from("Chris")))
    );
}

#[test]
fn t_join_std() {
    let res_std = join_with(HashFunction::StdHash, HashScheme::LinearProbe);
    let dep = Field::StringField(String::from("CS"));
    assert_eq!(res_std.len(), 3);
    assert_eq!(
        res_std[0],
        (dep.clone(), Field::StringField(String::from("Adam")))
    );
    assert_eq!(
        res_std[1],
        (dep.clone(), Field::StringField(String::from("Ben")))
    );
    assert_eq!(
        res_std[2],
        (dep.clone(), Field::StringField(String::from("Chris")))
    );
}

#[test]
fn t_join_t1ha() {
    let res_t1ha = join_with(HashFunction::T1haHash, HashScheme::LinearProbe);
    let dep = Field::StringField(String::from("CS"));
    assert_eq!(res_t1ha.len(), 3);
    assert_eq!(
        res_t1ha[0],
        (dep.clone(), Field::StringField(String::from("Adam")))
    );
    assert_eq!(
        res_t1ha[1],
        (dep.clone(), Field::StringField(String::from("Ben")))
    );
    assert_eq!(
        res_t1ha[2],
        (dep.clone(), Field::StringField(String::from("Chris")))
    );
}

#[test]
fn t_join_all_schemes() {
    // the equi-join emits the same matches under every scheme
    let dep = Field::StringField(String::from("CS"));
    let expected = vec![
        (dep.clone(), Field::StringField(String::from("Adam"))),
        (dep.clone(), Field::StringField(String::from("Ben"))),
        (dep.clone(), Field::StringField(String::from("Chris"))),
    ];
    for scheme in [
        HashScheme::LinearProbe,
        HashScheme::RobinHood,
        HashScheme::Hopscotch,
    ] {
        for function in [
            HashFunction::FarmHash,
            HashFunction::MurmurHash3,
            HashFunction::StdHash,
            HashFunction::T1haHash,
        ] {
            assert_eq!(join_with(function, scheme), expected);
        }
    }
}

#[test]
fn t_join_multiplicity() {
    // right-side multiplicity is preserved; the left side only gates presence
    let l_child = create_vec_tuple(vec![("CS", "Adam"), ("CS", "Adam"), ("CS", "Ben")]);
    let r_child = create_vec_tuple(vec![
        ("CS", "Adam"),
        ("CS", "Adam"),
        ("CS", "Eva"),
        ("CS", "Ben"),
    ]);
    let mut h_e_join = HashEqJoin::new(l_child, r_child, 2, 10);
    let res = h_e_join
        .join(HashFunction::StdHash, HashScheme::RobinHood)
        .unwrap();
    let dep = Field::StringField(String::from("CS"));
    assert_eq!(
        res,
        vec![
            (dep.clone(), Field::StringField(String::from("Adam"))),
            (dep.clone(), Field::StringField(String::from("Adam"))),
            (dep.clone(), Field::StringField(String::from("Ben"))),
        ]
    );
}

#[test]
fn t_join_predicate_new() {
    let p = JoinPredicate::new(PredicateOp::Equals, 0, 1);
    assert_eq!(p.left_index, 0);
    assert_eq!(p.right_index, 1);
    assert!(matches!(p.op, PredicateOp::Equals));
}

#[test]
fn t_predicate_compare() {
    assert!(PredicateOp::Equals.compare(&3, &3));
    assert!(!PredicateOp::Equals.compare(&3, &4));
    assert!(PredicateOp::GreaterThan.compare(&4, &3));
    assert!(PredicateOp::LessThan.compare(&3, &4));
    assert!(PredicateOp::LessThanOrEq.compare(&3, &3));
    assert!(PredicateOp::GreaterThanOrEq.compare(&4, &3));
    assert!(PredicateOp::NotEq.compare(&3, &4));
    assert!(PredicateOp::All.compare(&3, &4));
}

#[test]
fn t_predicate_flip() {
    assert!(matches!(
        PredicateOp::GreaterThan.flip(),
        PredicateOp::LessThan
    ));
    assert!(matches!(
        PredicateOp::LessThan.flip(),
        PredicateOp::GreaterThan
    ));
    assert!(matches!(
        PredicateOp::LessThanOrEq.flip(),
        PredicateOp::GreaterThanOrEq
    ));
    assert!(matches!(
        PredicateOp::GreaterThanOrEq.flip(),
        PredicateOp::LessThanOrEq
    ));
    assert!(matches!(PredicateOp::Equals.flip(), PredicateOp::Equals));
    assert!(matches!(PredicateOp::All.flip(), PredicateOp::All));
}

#[test]
fn t_op_iterator_lifecycle() {
    let l_child = create_vec_tuple(vec![("CS", "Adam")]);
    let r_child = create_vec_tuple(vec![("CS", "Adam")]);
    let mut j = HashEqJoin::new(l_child, r_child, 1, 4);
    assert!(j.open().is_ok());
    assert!(j.close().is_ok());
    assert_eq!(j.right_child.len(), 0);
    assert_eq!(j.opened, false);
}

#[test]
fn t_error_message() {
    assert_eq!(
        CrustyError::ValidationError(String::from("bad")).message(),
        "Validation Error: bad"
    );
    assert_eq!(
        CrustyError::ExecutionError(String::from("boom")).message(),
        "Execution Error: boom"
    );
    assert_eq!(
        CrustyError::CrustyError(String::from("x")).message(),
        "Crusty Error: x"
    );
    assert_eq!(
        CrustyError::IOError(String::from("file gone")).message(),
        "file gone"
    );
    assert_eq!(
        CrustyError::TransactionAbortedError.message(),
        "Transaction Aborted Error"
    );
}
