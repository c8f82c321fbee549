use nanosat::cnf::{Clause, Cnf, Formula, Literal};
use nanosat::solver::{ClauseStatus, Solver};

fn dummy_solver(num_vars: usize) -> Solver {
    Solver::new(Cnf {
        num_vars,
        num_clauses: 0,
        formula: Formula { clauses: vec![] },
    })
}

// Testing `assign` and `unassign` functions
#[test]
fn test_assign_updates_m_and_assignments() {
    let mut solver = dummy_solver(3);

    solver.assign(2, true, None);

    assert_eq!(solver.m[2], Some(true));
    assert_eq!(solver.assignments.len(), 1);

    let a = &solver.assignments[0];
    assert_eq!(a.variable, 2);
    assert_eq!(a.value, true);
    assert_eq!(a.decision_level, 0);
    assert!(a.antecedent.is_none());
}

#[test]
fn test_assign_with_antecedent() {
    let mut solver = dummy_solver(2);

    let clause = Clause { literals: vec![] };

    solver.assign(1, false, Some(clause.clone()));

    let a = &solver.assignments[0];

    assert_eq!(solver.m[1], Some(false));
    assert_eq!(a.variable, 1);
    assert_eq!(a.value, false);
    assert_eq!(a.antecedent, Some(clause));
}

#[test]
fn test_unassign_clears_m() {
    let mut solver = dummy_solver(2);

    solver.assign(1, true, None);
    solver.unassign(1);

    assert_eq!(solver.m[1], None);
}

#[test]
fn test_unassign_removes_assignment() {
    let mut solver = dummy_solver(3);

    solver.assign(1, true, None);
    solver.assign(2, false, None);

    solver.unassign(1);

    assert_eq!(solver.assignments.len(), 1);
    assert_eq!(solver.assignments[0].variable, 2);
}

#[test]
fn test_unassign_does_not_affect_other_variables() {
    let mut solver = dummy_solver(3);

    solver.assign(1, true, None);
    solver.assign(2, false, None);
    solver.assign(3, true, None);

    solver.unassign(2);

    assert_eq!(solver.m[1], Some(true));
    assert_eq!(solver.m[2], None);
    assert_eq!(solver.m[3], Some(true));

    assert_eq!(solver.assignments.len(), 2);
    assert!(solver.assignments.iter().any(|a| a.variable == 1));
    assert!(solver.assignments.iter().any(|a| a.variable == 3));
}

// Testing `all_variables_assigned`
#[test]
fn test_all_variables_assigned_false_when_some_missing() {
    let mut solver = dummy_solver(3);

    solver.assign(1, true, None);
    solver.assign(2, false, None);

    assert!(!solver.all_variables_assigned());
}

#[test]
fn test_all_variables_assigned_true_when_all_assigned() {
    let mut solver = dummy_solver(3);

    solver.assign(1, true, None);
    solver.assign(2, false, None);
    solver.assign(3, true, None);

    assert!(solver.all_variables_assigned());
}

#[test]
fn test_all_variables_assigned_ignores_position_zero() {
    let mut solver = dummy_solver(2);

    solver.assign(1, true, None);
    solver.assign(2, false, None);

    solver.m[0] = None;
    assert!(solver.all_variables_assigned());

    solver.m[0] = Some(true);
    assert!(solver.all_variables_assigned());

    solver.m[0] = Some(false);
    assert!(solver.all_variables_assigned());
}

// Testing `decide_variable`
#[test]
fn test_decide_variable_returns_first_unassigned() {
    let mut solver = dummy_solver(4);
    solver.assign(1, true, None);
    solver.assign(2, false, None);
    assert_eq!(solver.decide_variable(), 3);
}

#[test]
fn test_decide_variable_skips_position_zero() {
    let mut solver = dummy_solver(2);
    solver.m[0] = None;
    solver.assign(1, true, None);
    assert_eq!(solver.decide_variable(), 2);
}

#[test]
fn test_decide_variable_finds_gap_in_assignments() {
    let mut solver = dummy_solver(4);
    solver.assign(1, true, None);
    solver.assign(3, false, None);
    assert_eq!(solver.decide_variable(), 2);
}

#[test]
fn test_decide_variable_when_only_last_is_free() {
    let mut solver = dummy_solver(3);
    solver.assign(1, true, None);
    solver.assign(2, false, None);
    assert_eq!(solver.decide_variable(), 3);
}

// Testing `is_in_assignment`
#[test]
fn test_is_in_assignment_found() {
    let mut solver = dummy_solver(3);

    solver.assign(2, true, None);

    let lit = Literal {
        value: 2,
        is_negated: false,
    };

    assert_eq!(solver.is_in_assignment(&lit), Some(true));
}

#[test]
fn test_is_in_assignment_not_found() {
    let solver = dummy_solver(3);

    let lit = Literal {
        value: 1,
        is_negated: false,
    };

    assert_eq!(solver.is_in_assignment(&lit), None);
}

// Testing `clause_status`
#[test]
fn test_clause_status_satisfied() {
    let mut solver = dummy_solver(2);

    solver.assign(1, true, None);

    let clause = Clause {
        literals: vec![
            Literal {
                value: 1,
                is_negated: false,
            },
            Literal {
                value: 2,
                is_negated: false,
            },
        ],
    };

    match solver.clause_status(&clause) {
        ClauseStatus::Satisfied => {}
        _ => panic!("expected clause to be satisfied"),
    }
}

#[test]
fn test_clause_status_unsatisfied() {
    let mut solver = dummy_solver(2);

    solver.assign(1, false, None);
    solver.assign(2, false, None);

    let clause = Clause {
        literals: vec![
            Literal {
                value: 1,
                is_negated: false,
            },
            Literal {
                value: 2,
                is_negated: false,
            },
        ],
    };

    match solver.clause_status(&clause) {
        ClauseStatus::Unsatisfied => {}
        _ => panic!("expected clause to be unsatisfied"),
    }
}

#[test]
fn test_clause_status_unit() {
    let mut solver = dummy_solver(2);

    solver.assign(1, false, None);

    let clause = Clause {
        literals: vec![
            Literal {
                value: 1,
                is_negated: false,
            },
            Literal {
                value: 2,
                is_negated: false,
            },
        ],
    };

    match solver.clause_status(&clause) {
        ClauseStatus::Unit(lit) => {
            assert_eq!(lit.value, 2);
        }
        _ => panic!("expected unit clause"),
    }
}

#[test]
fn test_clause_status_unresolved() {
    let solver = dummy_solver(2);

    let clause = Clause {
        literals: vec![
            Literal {
                value: 1,
                is_negated: false,
            },
            Literal {
                value: 2,
                is_negated: false,
            },
        ],
    };

    match solver.clause_status(&clause) {
        ClauseStatus::Unresolved => {}
        _ => panic!("expected unresolved clause"),
    }
}

// Testing `propagate`

// Testing `resolution`
#[test]
fn test_resolution_basic() {
    let solver = dummy_solver(3);

    let a = Clause {
        literals: vec![
            Literal {
                value: 1,
                is_negated: false,
            },
            Literal {
                value: 2,
                is_negated: false,
            },
        ],
    };

    let b = Clause {
        literals: vec![
            Literal {
                value: 1,
                is_negated: true,
            },
            Literal {
                value: 3,
                is_negated: false,
            },
        ],
    };

    let result = solver.resolution(a, b, 1);

    assert_eq!(result.literals.len(), 2);
    assert!(result.literals.contains(&Literal {
        value: 2,
        is_negated: false
    }));
    assert!(result.literals.contains(&Literal {
        value: 3,
        is_negated: false
    }));
}

#[test]
fn test_resolution_removes_pivot_literal() {
    let solver = dummy_solver(2);

    let a = Clause {
        literals: vec![Literal {
            value: 1,
            is_negated: false,
        }],
    };

    let b = Clause {
        literals: vec![Literal {
            value: 1,
            is_negated: true,
        }],
    };

    let result = solver.resolution(a, b, 1);
    assert!(result.literals.is_empty());
}

// Testing `conflict_analysis`
#[test]
fn test_conflict_analysis_level_zero_returns_unsat() {
    let solver = dummy_solver(2);

    let conflict_clause = Clause {
        literals: vec![
            Literal {
                value: 1,
                is_negated: false,
            },
            Literal {
                value: 2,
                is_negated: false,
            },
        ],
    };

    let (level, clause) = solver.conflict_analysis(conflict_clause);

    assert!(level.is_none());
    assert!(clause.is_none());
}

#[test]
fn test_conflict_analysis_single_decision() {
    let mut solver = dummy_solver(1);

    solver.decision_level = 1;
    solver.assign(1, true, None);

    let conflict_clause = Clause {
        literals: vec![Literal {
            value: 1,
            is_negated: true,
        }],
    };

    let (level, learnt) = solver.conflict_analysis(conflict_clause);
    println!("{:?}, {:?}", level, learnt);

    assert!(learnt.is_some());
    assert_eq!(level, Some(0));
}

#[test]
fn test_conflict_analysis_backjump_level() {
    let mut solver = dummy_solver(3);

    solver.decision_level = 1;
    solver.assign(1, true, None);

    solver.decision_level = 2;
    solver.assign(2, true, None);

    solver.assign(
        3,
        false,
        Some(Clause {
            literals: vec![
                Literal {
                    value: 2,
                    is_negated: true,
                },
                Literal {
                    value: 3,
                    is_negated: false,
                },
            ],
        }),
    );

    let conflict_clause = Clause {
        literals: vec![
            Literal {
                value: 2,
                is_negated: true,
            },
            Literal {
                value: 3,
                is_negated: true,
            },
        ],
    };

    let (level, learnt) = solver.conflict_analysis(conflict_clause);

    assert!(learnt.is_some());
    assert_eq!(level, Some(1));
}

#[test]
fn test_conflict_analysis_learns_clause() {
    let mut solver = dummy_solver(2);

    solver.decision_level = 1;
    solver.assign(1, true, None);

    solver.assign(
        2,
        false,
        Some(Clause {
            literals: vec![
                Literal {
                    value: 1,
                    is_negated: true,
                },
                Literal {
                    value: 2,
                    is_negated: false,
                },
            ],
        }),
    );

    let conflict_clause = Clause {
        literals: vec![Literal {
            value: 2,
            is_negated: true,
        }],
    };

    let (_level, learnt) = solver.conflict_analysis(conflict_clause);

    let learnt = learnt.unwrap();

    assert!(!learnt.literals.is_empty());
}

// Testing `add_learnt_clause`
#[test]
fn test_add_learnt_clause_increases_formula() {
    let mut solver = dummy_solver(2);

    let clause = Clause {
        literals: vec![
            Literal {
                value: 1,
                is_negated: false,
            },
            Literal {
                value: 2,
                is_negated: true,
            },
        ],
    };

    let initial_len = solver.formula.clauses.len();

    solver.add_learnt_clause(clause.clone());

    assert_eq!(solver.formula.clauses.len(), initial_len + 1);
    assert_eq!(solver.formula.clauses.last(), Some(&clause));
}

// Testing `backjump`
#[test]
fn test_backjump_removes_higher_levels() {
    let mut solver = dummy_solver(3);

    solver.decision_level = 1;
    solver.assign(1, true, None);

    solver.decision_level = 2;
    solver.assign(2, false, None);

    solver.decision_level = 3;
    solver.assign(3, true, None);

    solver.backjump(1);

    assert_eq!(solver.m[1], Some(true));
    assert_eq!(solver.m[2], None);
    assert_eq!(solver.m[3], None);

    assert_eq!(solver.assignments.len(), 1);
    assert_eq!(solver.assignments[0].variable, 1);
}

#[test]
fn test_backjump_keeps_lower_levels() {
    let mut solver = dummy_solver(3);

    solver.decision_level = 1;
    solver.assign(1, true, None);

    solver.decision_level = 2;
    solver.assign(2, false, None);

    solver.backjump(2);

    assert_eq!(solver.m[1], Some(true));
    assert_eq!(solver.m[2], Some(false));

    assert_eq!(solver.assignments.len(), 2);
}

#[test]
fn test_backjump_to_zero() {
    let mut solver = dummy_solver(3);

    solver.decision_level = 1;
    solver.assign(1, true, None);

    solver.decision_level = 2;
    solver.assign(2, false, None);

    solver.backjump(0);

    assert_eq!(solver.m[1], None);
    assert_eq!(solver.m[2], None);

    assert!(solver.assignments.is_empty());
}
