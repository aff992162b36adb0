use minesweeper::ai::MineConstraint;
use minesweeper::board::Point;
use minesweeper::constraint::contains_id;
use minesweeper::constraint::find_variable;
use minesweeper::constraint::Constraint;
use minesweeper::constraint::ConstraintSolver;
use minesweeper::constraint::Counts;
use minesweeper::constraint::DegreeSelectionStrategy;
use minesweeper::constraint::FirstSelectionStrategy;
use minesweeper::constraint::RandomSelectionStrategy;
use minesweeper::constraint::SelectionStrategy;
use minesweeper::constraint::Variable;

fn variable(i: usize) -> Variable<Point, bool> {
    Variable { id: Point(0, i), value: None, possible: vec![false, true] }
}

fn variables(n: usize) -> Vec<Variable<Point, bool>> {
    (0..n).map(variable).collect()
}

fn local(mines: i32, empties: i32, members: &[usize]) -> MineConstraint {
    MineConstraint {
        expected_mines: mines,
        expected_empties: empties,
        constrained_points: members.iter().map(|&i| Point(0, i)).collect(),
        global: false,
    }
}

fn global(mines: i32, empties: i32, n: usize) -> MineConstraint {
    MineConstraint {
        expected_mines: mines,
        expected_empties: empties,
        constrained_points: (0..n).map(|i| Point(0, i)).collect(),
        global: true,
    }
}

fn copy_of(c: &MineConstraint) -> MineConstraint {
    MineConstraint {
        expected_mines: c.expected_mines,
        expected_empties: c.expected_empties,
        constrained_points: c.constrained_points.clone(),
        global: c.global,
    }
}

fn copies(constraints: &[MineConstraint]) -> Vec<MineConstraint> {
    constraints.iter().map(copy_of).collect()
}

/// Whether the values, where set, keep within the budget of the constraint.
fn within_budget(c: &MineConstraint, values: &[Option<bool>]) -> bool {
    let mut mines = 0;
    let mut empties = 0;
    if c.global {
        for v in values {
            match v {
                Some(true) => mines += 1,
                Some(false) => empties += 1,
                None => {}
            }
        }
    } else {
        for p in &c.constrained_points {
            match values[p.1] {
                Some(true) => mines += 1,
                Some(false) => empties += 1,
                None => {}
            }
        }
    }
    mines <= c.expected_mines && empties <= c.expected_empties
}

/// All full assignments that extend `partial` and that every constraint
/// accepts.
fn completions(constraints: &[MineConstraint], partial: &[Option<bool>]) -> Vec<Vec<bool>> {
    let n = partial.len();
    let mut found = Vec::new();
    for bits in 0..(1usize << n) {
        let full: Vec<bool> = (0..n).map(|i| bits & (1 << i) != 0).collect();
        if (0..n).any(|i| partial[i].is_some() && partial[i] != Some(full[i])) {
            continue;
        }
        let values: Vec<Option<bool>> = full.iter().map(|&b| Some(b)).collect();
        if constraints.iter().all(|c| within_budget(c, &values)) {
            found.push(full);
        }
    }
    found
}

struct Lcg(u64);

impl Lcg {
    fn next(&mut self, bound: usize) -> usize {
        self.0 = self.0.wrapping_mul(6364136223846793005).wrapping_add(1442695040888963407);
        ((self.0 >> 33) as usize) % bound
    }
}

/// A problem on `n` cells that hold a hidden layout of mines: some local
/// constraints that the layout meets, or misses by `slack`, and the global
/// constraint.
fn synthetic(rng: &mut Lcg, n: usize, slack: i32) -> Vec<MineConstraint> {
    let layout: Vec<bool> = (0..n).map(|_| rng.next(3) == 0).collect();
    let mut constraints = Vec::new();
    let groups = 1 + rng.next(4);
    for g in 0..groups {
        let mut members: Vec<usize> = (0..n).filter(|_| rng.next(3) == 0).collect();
        if members.is_empty() {
            members.push(rng.next(n));
        }
        let mines = members.iter().filter(|&&i| layout[i]).count() as i32;
        let shift = if g == 0 { slack } else { 0 };
        let expected_mines = mines + shift;
        let expected_empties = members.len() as i32 - expected_mines;
        if expected_mines < 0 || expected_empties < 0 {
            continue;
        }
        constraints.push(local(expected_mines, expected_empties, &members));
    }
    let total = layout.iter().filter(|&&b| b).count() as i32;
    constraints.push(global(total, n as i32 - total + rng.next(2) as i32, n));
    constraints
}

fn check_solution(constraints: &[MineConstraint], n: usize, solution: &[(Point, bool)]) {
    assert_eq!(solution.len(), n);
    for (i, (p, _)) in solution.iter().enumerate() {
        assert_eq!(*p, Point(0, i));
    }
    let values: Vec<Option<bool>> = solution.iter().map(|(_, v)| Some(*v)).collect();
    for c in constraints {
        assert!(within_budget(c, &values));
    }
}

#[test]
fn counts_count() {
    let mut counts: Counts<bool> = Counts::new();
    assert_eq!(counts.get(&true), 0);
    assert_eq!(counts.get(&false), 0);
    counts.increment(true);
    counts.increment(true);
    counts.increment(false);
    assert_eq!(counts.get(&true), 2);
    assert_eq!(counts.get(&false), 1);
    counts.decrement(true);
    assert_eq!(counts.get(&true), 1);
    assert_eq!(counts.get(&false), 1);
    counts.decrement(true);
    counts.decrement(false);
    assert_eq!(counts.get(&true), 0);
    assert_eq!(counts.get(&false), 0);
}

#[test]
fn find_variable_and_contains_id() {
    let vars = variables(4);
    assert_eq!(find_variable(&vars, &Point(0, 0)), Some(0));
    assert_eq!(find_variable(&vars, &Point(0, 3)), Some(3));
    assert_eq!(find_variable(&vars, &Point(1, 0)), None);
    let ids = vec![Point(1, 1), Point(2, 2)];
    assert!(contains_id(&ids, &Point(2, 2)));
    assert!(!contains_id(&ids, &Point(2, 1)));
    assert!(!contains_id(&Vec::<Point>::new(), &Point(0, 0)));
}

#[test]
fn first_strategy_picks_the_first_available() {
    let vars = variables(4);
    let index: Vec<Vec<usize>> = vec![vec![], vec![0], vec![0, 1, 2], vec![0, 1, 2]];
    let mut strategy = FirstSelectionStrategy {};
    let pick = |s: &mut FirstSelectionStrategy, mask: Vec<bool>| {
        SelectionStrategy::<Point, bool>::get_next_index(s, &vars, &index, &mask)
    };
    assert_eq!(pick(&mut strategy, vec![true, true, true, true]), Some(0));
    assert_eq!(pick(&mut strategy, vec![false, false, true, true]), Some(2));
    assert_eq!(pick(&mut strategy, vec![false, false, false, true]), Some(3));
    assert_eq!(pick(&mut strategy, vec![false, false, false, false]), None);
}

#[test]
fn degree_strategy_picks_the_last_of_the_most_constrained() {
    let vars = variables(4);
    let index: Vec<Vec<usize>> = vec![vec![], vec![0], vec![0, 1, 2], vec![0, 1, 2]];
    let mut strategy = DegreeSelectionStrategy {};
    let pick = |s: &mut DegreeSelectionStrategy, mask: Vec<bool>| {
        SelectionStrategy::<Point, bool>::get_next_index(s, &vars, &index, &mask)
    };
    assert_eq!(pick(&mut strategy, vec![true, true, true, true]), Some(3));
    assert_eq!(pick(&mut strategy, vec![true, true, true, false]), Some(2));
    assert_eq!(pick(&mut strategy, vec![true, true, false, false]), Some(1));
    assert_eq!(pick(&mut strategy, vec![true, false, false, false]), Some(0));
    assert_eq!(pick(&mut strategy, vec![false, false, false, false]), None);
}

#[test]
fn random_strategy_picks_among_the_available() {
    let vars = variables(5);
    let index: Vec<Vec<usize>> = vec![vec![]; 5];
    let mut strategy = RandomSelectionStrategy::new(7);
    let mask = vec![false, true, false, true, true];
    let mut seen = [0usize; 5];
    for _ in 0..300 {
        let pick =
            SelectionStrategy::<Point, bool>::get_next_index(&mut strategy, &vars, &index, &mask)
                .unwrap();
        assert!(mask[pick]);
        seen[pick] += 1;
    }
    assert!(seen[1] > 50 && seen[3] > 50 && seen[4] > 50);
    let none = vec![false; 5];
    assert_eq!(
        SelectionStrategy::<Point, bool>::get_next_index(&mut strategy, &vars, &index, &none),
        None
    );
}

#[test]
fn random_strategy_repeats_itself_for_a_seed() {
    let vars = variables(6);
    let index: Vec<Vec<usize>> = vec![vec![]; 6];
    let mask = vec![true; 6];
    let draw = |seed: u64| {
        let mut strategy = RandomSelectionStrategy::new(seed);
        (0..40)
            .map(|_| {
                SelectionStrategy::<Point, bool>::get_next_index(
                    &mut strategy,
                    &vars,
                    &index,
                    &mask,
                )
                .unwrap()
            })
            .collect::<Vec<usize>>()
    };
    assert_eq!(draw(3), draw(3));
    assert_ne!(draw(3), draw(4));
}

#[test]
fn mine_constraint_checks_its_budget() {
    let mut vars = variables(3);
    let c = local(1, 1, &[0, 1]);
    let counts: Counts<bool> = Counts::new();
    assert_eq!(c.get_constrained_variable_ids(), vec![Point(0, 0), Point(0, 1)]);
    assert!(c.check_constraint(&counts, &vars));
    assert_eq!(c.consistent_states_for_variable(&vars, &Point(0, 0)), vec![true, false]);
    assert_eq!(c.count_remaining_mined_and_empty(&vars), (0, 0));
    vars[0].value = Some(true);
    assert_eq!(c.count_remaining_mined_and_empty(&vars), (1, 0));
    assert!(c.check_constraint(&counts, &vars));
    assert_eq!(c.consistent_states_for_variable(&vars, &Point(0, 1)), vec![false]);
    vars[1].value = Some(true);
    assert!(!c.check_constraint(&counts, &vars));
    vars[1].value = Some(false);
    assert_eq!(c.count_remaining_mined_and_empty(&vars), (1, 1));
    assert!(c.check_constraint(&counts, &vars));
    assert_eq!(c.consistent_states_for_variable(&vars, &Point(0, 1)), Vec::<bool>::new());
    vars[2].value = Some(true);
    assert!(c.check_constraint(&counts, &vars));
    vars[0].value = Some(false);
    assert!(!c.check_constraint(&counts, &vars));
}

#[test]
fn global_constraint_reads_the_running_counts() {
    let mut vars = variables(3);
    let c = global(1, 2, 3);
    let mut counts: Counts<bool> = Counts::new();
    assert!(c.check_constraint(&counts, &vars));
    vars[2].value = Some(true);
    counts.increment(true);
    assert!(c.check_constraint(&counts, &vars));
    assert_eq!(c.consistent_states_for_variable(&vars, &Point(0, 0)), vec![false]);
    vars[0].value = Some(true);
    counts.increment(true);
    assert!(!c.check_constraint(&counts, &vars));
    vars[0].value = Some(false);
    counts.decrement(true);
    counts.increment(false);
    assert!(c.check_constraint(&counts, &vars));
    assert_eq!(c.consistent_states_for_variable(&vars, &Point(0, 1)), vec![false]);
}

#[test]
fn a_global_budget_without_mines_leaves_every_cell_empty() {
    let constraints = vec![global(0, 4, 4)];
    let mut solver = ConstraintSolver::new(variables(4), constraints, RandomSelectionStrategy::new(1));
    let solution = solver.backtrack().unwrap();
    assert_eq!(solution.len(), 4);
    assert!(solution.iter().all(|(_, mined)| !mined));
}

#[test]
fn a_global_budget_without_empties_makes_every_cell_a_mine() {
    let constraints = vec![global(4, 0, 4)];
    let mut solver = ConstraintSolver::new(variables(4), constraints, RandomSelectionStrategy::new(1));
    let solution = solver.backtrack().unwrap();
    assert_eq!(solution.len(), 4);
    assert!(solution.iter().all(|(_, mined)| *mined));
}

#[test]
fn backtrack_without_variables_finds_the_empty_assignment() {
    let constraints = vec![global(0, 0, 0)];
    let mut solver = ConstraintSolver::new(variables(0), constraints, FirstSelectionStrategy {});
    assert_eq!(solver.backtrack(), Some(vec![]));
}

#[test]
fn backtrack_leaves_the_solution_in_the_variables() {
    let constraints = vec![local(1, 1, &[0, 1]), local(1, 0, &[1]), global(1, 2, 3)];
    let mut solver = ConstraintSolver::new(variables(3), constraints, FirstSelectionStrategy {});
    let solution = solver.backtrack().unwrap();
    assert_eq!(
        solution,
        vec![(Point(0, 0), false), (Point(0, 1), true), (Point(0, 2), false)]
    );
    let values: Vec<Option<bool>> = solver.variable_lookup.iter().map(|v| v.value).collect();
    assert_eq!(values, vec![Some(false), Some(true), Some(false)]);
    assert_eq!(solver.global_counts.get(&true), 1);
    assert_eq!(solver.global_counts.get(&false), 2);
}

#[test]
fn backtrack_without_solution_puts_everything_back() {
    let constraints = vec![local(1, 0, &[0]), local(0, 1, &[0]), global(1, 1, 2)];
    let mut solver = ConstraintSolver::new(variables(2), constraints, DegreeSelectionStrategy {});
    assert_eq!(solver.backtrack(), None);
    assert!(solver.variable_lookup.iter().all(|v| v.value.is_none()));
    assert_eq!(solver.global_counts.get(&true), 0);
    assert_eq!(solver.global_counts.get(&false), 0);
}

#[test]
fn undo_restores_counts_and_tallies() {
    let constraints = vec![local(1, 2, &[0, 1, 2]), global(2, 2, 4)];
    let mut solver = ConstraintSolver::new(variables(4), constraints, FirstSelectionStrategy {});
    solver.set_variable_state(1, Some(false));
    let tally = local(1, 2, &[0, 1, 2]);
    let before_counts = (solver.global_counts.get(&true), solver.global_counts.get(&false));
    let before_tally = tally.count_remaining_mined_and_empty(&solver.variable_lookup);
    let before_values: Vec<Option<bool>> = solver.variable_lookup.iter().map(|v| v.value).collect();
    assert_eq!(before_counts, (0, 1));
    assert_eq!(before_tally, (0, 1));

    solver.set_variable_state(2, Some(true));
    assert_eq!((solver.global_counts.get(&true), solver.global_counts.get(&false)), (1, 1));
    assert_eq!(tally.count_remaining_mined_and_empty(&solver.variable_lookup), (1, 1));
    assert_eq!(solver.variable_lookup[2].value, Some(true));
    assert!(solver.constraints_are_satisfied(2));

    solver.set_variable_state(2, None);
    let after_values: Vec<Option<bool>> = solver.variable_lookup.iter().map(|v| v.value).collect();
    assert_eq!((solver.global_counts.get(&true), solver.global_counts.get(&false)), before_counts);
    assert_eq!(tally.count_remaining_mined_and_empty(&solver.variable_lookup), before_tally);
    assert_eq!(after_values, before_values);
}

#[test]
fn set_variable_state_replaces_a_value() {
    let constraints = vec![global(2, 2, 2)];
    let mut solver = ConstraintSolver::new(variables(2), constraints, FirstSelectionStrategy {});
    solver.set_variable_state(0, Some(true));
    solver.set_variable_state(0, Some(false));
    assert_eq!(solver.variable_lookup[0].value, Some(false));
    assert_eq!(solver.global_counts.get(&true), 0);
    assert_eq!(solver.global_counts.get(&false), 1);
}

#[test]
fn checks_look_at_the_constraints_of_the_variable() {
    let constraints = vec![local(0, 1, &[0]), local(1, 1, &[1, 2]), global(3, 3, 3)];
    let mut solver = ConstraintSolver::new(variables(3), constraints, FirstSelectionStrategy {});
    solver.set_variable_state(0, Some(true));
    assert!(!solver.constraints_are_satisfied(0));
    assert!(solver.constraints_are_satisfied(1));
    solver.set_variable_state(0, Some(false));
    assert!(solver.constraints_are_satisfied(0));
    assert!(solver.forward_check(0));
    solver.set_variable_state(1, Some(true));
    assert!(solver.constraints_are_satisfied(1));
    assert!(solver.forward_check(1));
}

#[test]
fn forward_check_sees_a_cell_left_without_a_value() {
    let constraints = vec![local(1, 0, &[0, 1]), global(2, 2, 2)];
    let mut solver = ConstraintSolver::new(variables(2), constraints, FirstSelectionStrategy {});
    solver.set_variable_state(0, Some(true));
    assert!(solver.constraints_are_satisfied(0));
    assert!(!solver.forward_check(0));
}

#[test]
fn forward_check_passes_when_a_constraint_is_used_up_by_its_last_cell() {
    let constraints = vec![local(1, 1, &[0, 1]), global(1, 1, 2)];
    let mut solver = ConstraintSolver::new(variables(2), constraints, FirstSelectionStrategy {});
    solver.set_variable_state(0, Some(false));
    assert!(solver.forward_check(0));
    solver.set_variable_state(1, Some(true));
    assert!(solver.constraints_are_satisfied(1));
    assert!(solver.forward_check(1));
}

#[test]
fn backtrack_agrees_with_brute_force() {
    let mut rng = Lcg(42);
    let mut solvable = 0;
    let mut unsolvable = 0;
    for round in 0..120 {
        let n = 1 + rng.next(9);
        let slack = [0, 0, 1, -1, 2][round % 5];
        let constraints = synthetic(&mut rng, n, slack);
        let expected = completions(&constraints, &vec![None; n]);

        let mut first =
            ConstraintSolver::new(variables(n), copies(&constraints), FirstSelectionStrategy {});
        let mut degree =
            ConstraintSolver::new(variables(n), copies(&constraints), DegreeSelectionStrategy {});
        let mut random = ConstraintSolver::new(
            variables(n),
            copies(&constraints),
            RandomSelectionStrategy::new(round as u64),
        );
        let results = [first.backtrack(), degree.backtrack(), random.backtrack()];
        for result in results.iter() {
            match result {
                Some(solution) => {
                    assert!(!expected.is_empty());
                    check_solution(&constraints, n, solution);
                    let values: Vec<bool> = solution.iter().map(|(_, v)| *v).collect();
                    assert!(expected.contains(&values));
                }
                None => assert!(expected.is_empty()),
            }
        }
        if expected.is_empty() {
            unsolvable += 1;
        } else {
            solvable += 1;
        }
    }
    assert!(solvable > 20);
    assert!(unsolvable > 5);
}

#[test]
fn backtrack_on_twelve_cells_agrees_with_brute_force() {
    let mut rng = Lcg(2024);
    for round in 0..6 {
        let n = 12;
        let constraints = synthetic(&mut rng, n, [0, 1, 0, -1, 0, 0][round]);
        let expected = completions(&constraints, &vec![None; n]);
        let mut solver = ConstraintSolver::new(
            variables(n),
            copies(&constraints),
            RandomSelectionStrategy::new(round as u64),
        );
        match solver.backtrack() {
            Some(solution) => {
                check_solution(&constraints, n, &solution);
                assert!(!expected.is_empty());
            }
            None => assert!(expected.is_empty()),
        }
    }
}

#[test]
fn first_strategy_finds_the_first_solution_in_order() {
    let mut rng = Lcg(7);
    for _ in 0..60 {
        let n = 1 + rng.next(8);
        let constraints = synthetic(&mut rng, n, 0);
        let expected = completions(&constraints, &vec![None; n]);
        let smallest = expected.iter().min_by_key(|full| full.clone().clone()).unwrap();
        let mut solver =
            ConstraintSolver::new(variables(n), copies(&constraints), FirstSelectionStrategy {});
        let solution = solver.backtrack().unwrap();
        let values: Vec<bool> = solution.iter().map(|(_, v)| *v).collect();
        assert_eq!(&values, smallest);
    }
}

#[test]
fn an_empty_offer_means_that_no_completion_exists() {
    let mut rng = Lcg(99);
    let mut dead_ends = 0;
    let mut withheld = 0;
    for round in 0..150 {
        let n = 2 + rng.next(7);
        let mut constraints = synthetic(&mut rng, n, [0, 1, -1][round % 3]);
        let short: Vec<usize> = (0..n).filter(|_| rng.next(2) == 0).collect();
        if short.len() >= 2 {
            let mines = rng.next(short.len()) as i32;
            let empties = rng.next(short.len() - mines as usize) as i32;
            constraints.insert(0, local(mines, empties, &short));
        }
        let mut solver =
            ConstraintSolver::new(variables(n), copies(&constraints), FirstSelectionStrategy {});
        let mut partial: Vec<Option<bool>> = vec![None; n];
        for i in 0..n {
            if rng.next(2) == 0 {
                let value = rng.next(2) == 0;
                solver.set_variable_state(i, Some(value));
                partial[i] = Some(value);
            }
        }
        for c in &constraints {
            for p in &c.constrained_points {
                if partial[p.1].is_some() {
                    continue;
                }
                let offer = c.consistent_states_for_variable(&solver.variable_lookup, p);
                if offer.is_empty() {
                    dead_ends += 1;
                    assert!(completions(&constraints, &partial).is_empty());
                    assert!(completions(&[copy_of(c)], &partial).is_empty());
                }
                for value in [false, true] {
                    if !offer.contains(&value) {
                        withheld += 1;
                        let mut with = partial.clone();
                        with[p.1] = Some(value);
                        assert!(completions(&[copy_of(c)], &with).is_empty());
                    }
                }
            }
        }
    }
    assert!(dead_ends > 0);
    assert!(withheld > 50);
}

#[test]
fn deterministic_strategies_repeat_their_answer() {
    let mut rng = Lcg(5);
    for _ in 0..40 {
        let n = 1 + rng.next(9);
        let constraints = synthetic(&mut rng, n, 0);
        let mut one =
            ConstraintSolver::new(variables(n), copies(&constraints), DegreeSelectionStrategy {});
        let mut two =
            ConstraintSolver::new(variables(n), copies(&constraints), DegreeSelectionStrategy {});
        assert_eq!(one.backtrack(), two.backtrack());
        let mut three =
            ConstraintSolver::new(variables(n), copies(&constraints), FirstSelectionStrategy {});
        let mut four =
            ConstraintSolver::new(variables(n), copies(&constraints), FirstSelectionStrategy {});
        assert_eq!(three.backtrack(), four.backtrack());
    }
}

#[test]
fn a_seed_fixes_the_answer_of_the_random_strategy() {
    let mut rng = Lcg(11);
    for round in 0..20 {
        let n = 4 + rng.next(6);
        let constraints = synthetic(&mut rng, n, 0);
        let mut one = ConstraintSolver::new(
            variables(n),
            copies(&constraints),
            RandomSelectionStrategy::new(round),
        );
        let mut two = ConstraintSolver::new(
            variables(n),
            copies(&constraints),
            RandomSelectionStrategy::new(round),
        );
        assert_eq!(one.backtrack(), two.backtrack());
    }
}

#[test]
fn backtrack_goes_deep_without_trouble() {
    let n = 300;
    let mut constraints = Vec::new();
    for i in 0..n / 2 {
        constraints.push(local(1, 1, &[2 * i, 2 * i + 1]));
    }
    constraints.push(global(150, 150, n));
    let mut solver =
        ConstraintSolver::new(variables(n), copies(&constraints), FirstSelectionStrategy {});
    let solution = solver.backtrack().unwrap();
    check_solution(&constraints, n, &solution);
    for i in 0..n / 2 {
        assert!(!solution[2 * i].1);
        assert!(solution[2 * i + 1].1);
    }
}

#[test]
fn backtrack_takes_back_many_values_before_it_gives_up() {
    let n = 14;
    let mut constraints = Vec::new();
    constraints.push(local(0, 1, &[n - 1]));
    constraints.push(local(1, 0, &[n - 1]));
    constraints.push(global(n as i32, n as i32, n));
    let mut solver =
        ConstraintSolver::new(variables(n), copies(&constraints), FirstSelectionStrategy {});
    assert_eq!(solver.backtrack(), None);
    assert!(solver.variable_lookup.iter().all(|v| v.value.is_none()));
    assert_eq!(solver.global_counts.get(&true), 0);
    assert_eq!(solver.global_counts.get(&false), 0);
}

#[test]
fn a_violated_constraint_without_points_leaves_no_solution() {
    let overdrawn = MineConstraint {
        expected_mines: -1,
        expected_empties: 0,
        constrained_points: vec![],
        global: true,
    };
    let mut empty = ConstraintSolver::new(variables(0), vec![overdrawn], FirstSelectionStrategy {});
    assert_eq!(empty.backtrack(), None);

    let constraints = vec![local(0, -1, &[]), local(1, 1, &[0, 1]), global(1, 1, 2)];
    assert!(completions(&constraints, &[None, None]).is_empty());
    let mut solver =
        ConstraintSolver::new(variables(2), copies(&constraints), DegreeSelectionStrategy {});
    assert_eq!(solver.backtrack(), None);
    assert!(solver.variable_lookup.iter().all(|v| v.value.is_none()));

    let kept = vec![local(0, 0, &[]), local(1, 1, &[0, 1]), global(1, 1, 2)];
    assert_eq!(completions(&kept, &[None, None]).len(), 2);
    let mut other = ConstraintSolver::new(variables(2), copies(&kept), FirstSelectionStrategy {});
    assert_eq!(other.backtrack(), Some(vec![(Point(0, 0), false), (Point(0, 1), true)]));
}

#[test]
fn undo_restores_the_counts_after_any_value() {
    let constraints = vec![global(1, 1, 2)];
    let only_empty: Vec<Variable<Point, bool>> = (0..2)
        .map(|i| Variable { id: Point(0, i), value: None, possible: vec![false] })
        .collect();
    let mut solver = ConstraintSolver::new(only_empty, constraints, FirstSelectionStrategy {});
    solver.set_variable_state(0, Some(true));
    assert_eq!(solver.global_counts.get(&true), 1);
    assert_eq!(solver.variable_lookup[0].value, Some(true));
    solver.set_variable_state(0, None);
    assert_eq!(solver.global_counts.get(&true), 0);
    assert_eq!(solver.global_counts.get(&false), 0);
    assert!(solver.variable_lookup.iter().all(|v| v.value.is_none()));
}

#[test]
fn the_index_lists_the_constraints_of_a_variable_in_their_order() {
    let constraints = vec![local(1, 1, &[1, 0]), local(1, 0, &[1]), global(2, 2, 3)];
    let solver = ConstraintSolver::new(variables(3), constraints, FirstSelectionStrategy {});
    assert_eq!(solver.variable_to_constraints, vec![vec![0, 2], vec![0, 1, 2], vec![2]]);
}
