use nanosat::cdcl::{SolverStatus, CDCL};
use nanosat::cli::{assignment_line, check_input_extension, AppError, IoError};
use nanosat::cnf::{Assignment, Clause, Cnf, Formula, Literal};
use nanosat::dimacs::{cnf_from_scan, parse_cnf, scan_cnf_lines, trim_line, ParserError};
use nanosat::instance::{instance_is_readable, parse_instance};
use nanosat::search::SearchEnd;
use nanosat::{search_problem, solve};
use nanosat::solver::{PropagationStatus, Solver};
use nanosat::types;

fn lit(v: i32) -> Literal {
    Literal {
        value: v.unsigned_abs() as usize,
        is_negated: v < 0,
    }
}

fn clause(vs: &[i32]) -> Clause {
    Clause {
        literals: vs.iter().map(|v| lit(*v)).collect(),
    }
}

fn lines(text: &[&str]) -> Vec<Vec<char>> {
    text.iter().map(|l| l.chars().collect()).collect()
}

fn satisfies(model: &[Assignment], clauses: &[Vec<i32>]) -> bool {
    clauses.iter().all(|c| {
        c.iter().any(|l| {
            model
                .iter()
                .any(|a| a.variable == l.unsigned_abs() as usize && a.value == (*l > 0))
        })
    })
}

#[test]
fn cnf_new_maps_signs_to_literals() {
    let cnf = Cnf::new(3, 2, vec![vec![1, -3], vec![2]]);
    assert_eq!(cnf.num_vars, 3);
    assert_eq!(cnf.num_clauses, 2);
    assert_eq!(cnf.formula.formula_len(), 2);
    assert_eq!(cnf.formula.clauses[0].clause_len(), 2);
    assert_eq!(cnf.formula.clauses[0].literals[1], Literal { value: 3, is_negated: true });
    assert_eq!(cnf.formula.clauses[1].literals[0], Literal { value: 2, is_negated: false });
}

#[test]
fn negate_flips_sign_only() {
    let l = Literal { value: 4, is_negated: false };
    let n = l.negate();
    assert_eq!(n, Literal { value: 4, is_negated: true });
    assert_eq!(n.negate(), l);
}

#[test]
fn assignment_new_keeps_fields() {
    let a = Assignment::new(5, false, 2, Some(clause(&[1, -5])));
    assert_eq!(a.variable, 5);
    assert!(!a.value);
    assert_eq!(a.decision_level, 2);
    assert_eq!(a.antecedent, Some(clause(&[1, -5])));
}

#[test]
fn solve_finds_a_model() {
    let clauses = vec![vec![1, 2], vec![-1, 2], vec![-2, 3], vec![-3, -1]];
    let model = solve(Cnf::new(3, 4, clauses.clone())).expect("satisfiable");
    assert!(satisfies(&model, &clauses));
    for v in 1..=3 {
        assert_eq!(model.iter().filter(|a| a.variable == v).count(), 1);
    }
}

#[test]
fn solve_follows_the_search_steps() {
    // decide 1, propagate 2 and 3, conflict on (-3 -1), learn (-1), jump to 0,
    // then propagate -1, 2 and 3 at level 0
    let clauses = vec![vec![1, 2], vec![-1, 2], vec![-2, 3], vec![-3, -1]];
    let model = solve(Cnf::new(3, 4, clauses.clone())).expect("satisfiable");
    let entries: Vec<(usize, bool, usize)> = model.iter().map(|a| (a.variable, a.value, a.decision_level)).collect();
    assert_eq!(entries, vec![(1, false, 0), (2, true, 0), (3, true, 0)]);
    assert_eq!(model[0].antecedent, Some(clause(&[-1])));
    let again = solve(Cnf::new(3, 4, clauses)).expect("satisfiable");
    assert_eq!(again, model);
}

#[test]
fn solve_takes_a_clause_that_repeats_a_literal() {
    let model = solve(Cnf::new(1, 1, vec![vec![1, 1]])).expect("satisfiable");
    assert_eq!(model.len(), 1);
    assert_eq!((model[0].variable, model[0].value), (1, true));
}

#[test]
fn search_stops_where_analysis_cannot_start() {
    // deciding x1 falsifies (-1 -1): two literals at level 1, none forced
    assert!(matches!(search_problem(Cnf::new(1, 1, vec![vec![-1, -1]])), SearchEnd::Stuck));
}

#[test]
fn search_stops_on_a_clause_that_asserts_nothing() {
    // learns (-3) at level 3, asserts x3 false at level 2, where (3 3 -1) is falsified;
    // resolving it on x3 leaves (-1), with no literal at level 2
    let clauses = vec![vec![-3, 4], vec![-3, -4], vec![3, 3, -1]];
    assert!(matches!(search_problem(Cnf::new(4, 3, clauses)), SearchEnd::Unasserting));
}

#[test]
fn search_problem_answers_as_solve() {
    let clauses = vec![vec![1, 2], vec![-1, 2], vec![-2, 3], vec![-3, -1]];
    match search_problem(Cnf::new(3, 4, clauses.clone())) {
        SearchEnd::Sat(model) => assert_eq!(Some(model), solve(Cnf::new(3, 4, clauses))),
        _ => panic!("satisfiable"),
    }
    assert!(matches!(search_problem(Cnf::new(1, 2, vec![vec![1], vec![-1]])), SearchEnd::Unsat));
}

#[test]
fn solve_reports_unsatisfiable() {
    assert!(solve(Cnf::new(1, 2, vec![vec![1], vec![-1]])).is_none());
    assert!(solve(Cnf::new(2, 4, vec![vec![1, 2], vec![-1, 2], vec![1, -2], vec![-1, -2]])).is_none());
}

#[test]
fn solve_learns_through_conflicts() {
    // pigeonhole: three pigeons, two holes
    let clauses = vec![
        vec![1, 2],
        vec![3, 4],
        vec![5, 6],
        vec![-1, -3],
        vec![-1, -5],
        vec![-3, -5],
        vec![-2, -4],
        vec![-2, -6],
        vec![-4, -6],
    ];
    assert!(solve(Cnf::new(6, 9, clauses)).is_none());
    let sat = vec![vec![-1, -2, 3], vec![1, -3], vec![2, 3], vec![-3, 4], vec![-4, -2, 1]];
    let model = solve(Cnf::new(4, 5, sat.clone())).expect("satisfiable");
    assert!(satisfies(&model, &sat));
}

#[test]
fn solve_without_clauses_assigns_every_variable() {
    let model = solve(Cnf::new(3, 0, vec![])).expect("satisfiable");
    assert_eq!(model.len(), 3);
    assert!(model.iter().all(|a| a.value));
}

#[test]
fn propagate_assigns_forced_values() {
    let mut solver = Solver::new(Cnf::new(2, 2, vec![vec![1], vec![-1, 2]]));
    match solver.propagate() {
        PropagationStatus::Unresolved => {}
        PropagationStatus::Conflict(_) => panic!("no conflict expected"),
    }
    assert_eq!(solver.m[1], Some(true));
    assert_eq!(solver.m[2], Some(true));
    assert_eq!(solver.assignments[1].antecedent, Some(clause(&[-1, 2])));
}

#[test]
fn propagate_reports_conflict() {
    let mut solver = Solver::new(Cnf::new(1, 2, vec![vec![1], vec![-1]]));
    match solver.propagate() {
        PropagationStatus::Conflict(c) => assert_eq!(c, clause(&[-1])),
        PropagationStatus::Unresolved => panic!("conflict expected"),
    }
}

#[test]
fn resolution_is_sorted_and_drops_pivot() {
    let solver = Solver::new(Cnf::new(3, 0, vec![]));
    let r = solver.resolution(clause(&[3, -1, 2]), clause(&[1, -3, 2]), 1);
    assert_eq!(r.literals, vec![lit(2), lit(3), lit(-3)]);
}

#[test]
fn literals_at_current_level_counts() {
    let mut solver = Solver::new(Cnf::new(3, 0, vec![]));
    solver.decision_level = 1;
    solver.assign(1, true, None);
    solver.decision_level = 2;
    solver.assign(2, true, None);
    assert_eq!(solver.literals_at_current_level(&clause(&[-1, -2, 3])), 1);
    solver.assign(3, true, None);
    assert_eq!(solver.literals_at_current_level(&clause(&[-1, -2, -3])), 2);
}

#[test]
fn conflict_analysis_learns_asserting_clause() {
    let mut solver = Solver::new(Cnf::new(3, 0, vec![]));
    solver.decision_level = 1;
    solver.assign(1, true, None);
    solver.assign(2, true, Some(clause(&[-1, 2])));
    solver.assign(3, true, Some(clause(&[-2, 3])));
    let (level, learnt) = solver.conflict_analysis(clause(&[-2, -3]));
    assert_eq!(level, Some(0));
    assert_eq!(learnt.unwrap().literals, vec![lit(-1)]);
}

#[test]
fn conflict_analysis_jumps_to_second_highest_level_of_learnt_clause() {
    let mut solver = Solver::new(Cnf::new(4, 0, vec![]));
    solver.decision_level = 1;
    solver.assign(1, true, None);
    solver.decision_level = 2;
    solver.assign(2, true, None);
    solver.decision_level = 3;
    solver.assign(3, true, None);
    solver.assign(4, true, Some(clause(&[-1, -3, 4])));
    let (level, learnt) = solver.conflict_analysis(clause(&[-1, -3, -4]));
    assert_eq!(level, Some(1));
    assert_eq!(learnt.unwrap().literals, vec![lit(-1), lit(-3)]);
}

#[test]
fn conflict_analysis_takes_a_repeated_literal() {
    let mut solver = Solver::new(Cnf::new(3, 0, vec![]));
    solver.decision_level = 1;
    solver.assign(1, true, None);
    solver.decision_level = 2;
    solver.assign(2, true, None);
    solver.assign(3, true, Some(clause(&[-2, 3])));
    let (level, learnt) = solver.conflict_analysis(clause(&[-1, -1, -3]));
    assert_eq!(level, Some(1));
    assert_eq!(learnt.unwrap(), clause(&[-1, -1, -3]));
}

#[test]
fn unassign_after_assign_restores() {
    let mut solver = Solver::new(Cnf::new(3, 0, vec![]));
    solver.assign(1, true, None);
    let before_m = solver.m.clone();
    let before_len = solver.assignments.len();
    solver.assign(3, false, Some(clause(&[-3])));
    solver.unassign(3);
    assert_eq!(solver.m, before_m);
    assert_eq!(solver.assignments.len(), before_len);
    assert_eq!(solver.assignments[0].variable, 1);
}

#[test]
fn backjump_to_top_level_keeps_everything() {
    let mut solver = Solver::new(Cnf::new(3, 0, vec![]));
    solver.decision_level = 1;
    solver.assign(1, true, None);
    solver.decision_level = 2;
    solver.assign(2, false, None);
    solver.backjump(5);
    assert_eq!(solver.assignments.len(), 2);
    assert_eq!(solver.m[2], Some(false));
}

#[test]
fn parse_cnf_reads_header_comments_and_clauses() {
    let l = lines(&["c a comment", "", "  p cnf 3 2  ", "1 -3 0", "2", "0"]);
    let cnf = parse_cnf(&l).expect("valid");
    assert_eq!(cnf.num_vars, 3);
    assert_eq!(cnf.num_clauses, 2);
    assert_eq!(cnf.formula.clauses, vec![clause(&[1, -3]), clause(&[2])]);
}

#[test]
fn parse_cnf_stops_at_text_after_integers() {
    let l = lines(&["p cnf 2 1 extra", "1\t+2 0 junk 5"]);
    let cnf = parse_cnf(&l).expect("valid");
    assert_eq!(cnf.formula.clauses, vec![clause(&[1, 2])]);
}

#[test]
fn parse_cnf_errors() {
    assert!(matches!(parse_cnf(&lines(&["p cnf x 1"])), Err(ParserError::InvalidHeader)));
    assert!(matches!(parse_cnf(&lines(&["pcnf 1 1"])), Err(ParserError::InvalidHeader)));
    assert!(matches!(parse_cnf(&lines(&["p cnf 1 1", "a 0"])), Err(ParserError::InvalidClause)));
    assert!(matches!(parse_cnf(&lines(&["p cnf 1 1", "1"])), Err(ParserError::UnterminatedClause)));
    assert!(matches!(
        parse_cnf(&lines(&["p cnf 1 1", "99999999999 0"])),
        Err(ParserError::InvalidClause)
    ));
}

#[test]
fn scan_keeps_header_and_open_clause() {
    let scan = scan_cnf_lines(&lines(&["1 2 0 3"])).expect("readable");
    assert_eq!(scan.num_vars, None);
    assert_eq!(scan.clauses, vec![vec![1, 2]]);
    assert_eq!(scan.current, vec![3]);
    assert!(matches!(cnf_from_scan(scan), Err(ParserError::UnterminatedClause)));
}

#[test]
fn trim_line_removes_unicode_white_space() {
    let t = trim_line(&"\u{a0} p cnf 1 1\t\u{3000}".chars().collect());
    assert_eq!(t.iter().collect::<String>(), "p cnf 1 1");
}

#[test]
fn parse_instance_reads_tokens() {
    let l = lines(&["c comment", "p cnf 3 2", "1 -2 0 3", "0 4"]);
    assert!(instance_is_readable(&l));
    let (vars, count, formula) = parse_instance(&l);
    assert_eq!(vars, 3);
    assert_eq!(count, 2);
    assert_eq!(formula.clauses.len(), 2);
    assert_eq!(formula.clauses[0].literals[1], types::Literal { variable: 2, is_negated: true });
    assert_eq!(formula.clauses[1].literals, vec![types::Literal { variable: 3, is_negated: false }]);
}

#[test]
fn instance_unreadable_lines() {
    assert!(!instance_is_readable(&lines(&["p cnf 3 2", ""])));
    assert!(!instance_is_readable(&lines(&["1 x 0"])));
    assert!(!instance_is_readable(&lines(&["p cnf 3"])));
    assert!(!instance_is_readable(&lines(&["p cnf -3 2"])));
    assert!(instance_is_readable(&lines(&["p cnf +3 2", "+1 -2 0"])));
}

#[test]
fn types_text() {
    let a = types::Literal { variable: 3, is_negated: true };
    assert_eq!(a.to_string(), "-3");
    assert_eq!(a.negation().to_string(), "3");
    let b = types::Literal { variable: 1234567890, is_negated: false };
    assert_eq!(b.to_string(), "1234567890");
    let c1 = types::Clause { literals: vec![types::Literal { variable: 1, is_negated: false }, a] };
    let c2 = types::Clause { literals: vec![types::Literal { variable: 2, is_negated: false }] };
    assert_eq!(c1.to_string(), "1∨-3");
    let f = types::Formula { clauses: vec![c1, c2] };
    assert_eq!(f.to_string(), "1∨-3 ∧ 2");
}

#[test]
fn cdcl_decides_variable_one() {
    let f = types::Formula {
        clauses: vec![types::Clause { literals: vec![types::Literal { variable: 1, is_negated: false }] }],
    };
    let mut cdcl = CDCL::new(2, f);
    match cdcl.solve() {
        SolverStatus::Sat(model) => assert_eq!(model, vec![None, Some(true), None]),
        SolverStatus::Unsat => panic!("satisfiable"),
    }
    let mut empty = CDCL::new(1, types::Formula { clauses: vec![] });
    match empty.solve() {
        SolverStatus::Sat(model) => assert_eq!(model, vec![None, None]),
        SolverStatus::Unsat => panic!("satisfiable"),
    }
}

#[test]
fn extension_checks() {
    assert_eq!(check_input_extension(Some("cnf")), Ok(()));
    assert_eq!(check_input_extension(Some("txt")), Err(IoError::DifferentExtension));
    assert_eq!(check_input_extension(Some("cnfx")), Err(IoError::DifferentExtension));
    assert_eq!(check_input_extension(None), Err(IoError::MissingExtension));
    assert_eq!(AppError::from(IoError::MissingExtension), AppError::Io(IoError::MissingExtension));
    assert_eq!(AppError::from(ParserError::InvalidHeader), AppError::Parser(ParserError::InvalidHeader));
}

#[test]
fn assignment_line_sorts_by_variable() {
    let model = vec![
        Assignment::new(3, true, 1, None),
        Assignment::new(1, false, 0, None),
        Assignment::new(12, true, 2, None),
    ];
    assert_eq!(assignment_line(&model), "1 -3 -12 ");
    assert_eq!(assignment_line(&vec![]), "");
}

#[test]
fn formula_type_is_shared() {
    let f = Formula { clauses: vec![clause(&[1])] };
    assert_eq!(f.formula_len(), 1);
}
