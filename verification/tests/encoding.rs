use std::collections::HashSet;

use superperm_sat::bounds::Bounds;
use superperm_sat::formula::Formula;
use superperm_sat::goal::Goal;
use superperm_sat::logic::Logic;
use superperm_sat::machine::Machine;
use superperm_sat::problem::Problem;

fn encode(n: usize, length: usize, max_permutations: &[usize]) -> Formula {
    let mut formula = Formula::new();
    let machine = Machine::new(n, length, &mut formula);
    let goal = Goal::new(n, length, &mut formula);
    let bounds = Bounds::new(n, length, max_permutations);
    let logic = Logic::new(formula);
    let mut problem = Problem::new(n, length, machine, goal, bounds, logic);

    problem.the_machine_starts_in_the_dead_states();
    problem.the_machine_changes_state_when_it_reads_input();
    problem.each_permutation_appears_at_most_once();
    problem.the_string_starts_with_ascending_numbers();
    problem.all_binary_representations_map_to_states();
    problem.the_number_of_wasted_symbols_is_within_bounds();

    problem.logic.formula
}

#[test]
fn it_builds_a_well_formed_instance_for_three_symbols() {
    let formula = encode(3, 9, &[3, 5]);

    let rendered = formula.dimacs();
    let mut lines = rendered.lines();

    // The header announces the variable and clause counts.
    let header = lines.next().unwrap();
    let parts = header.split(' ').collect::<Vec<_>>();
    assert_eq!(parts[0], "p");
    assert_eq!(parts[1], "cnf");
    let variables: usize = parts[2].parse().unwrap();
    let clauses: usize = parts[3].parse().unwrap();
    assert_eq!(variables, formula.variables.len());
    assert_eq!(clauses, formula.clauses.len());

    // The machine alone uses 72 variables; the goal, counter and aliases
    // allocate more after it.
    assert!(variables > 72);
    assert!(clauses > 0);

    let mut seen = HashSet::new();
    let mut count = 0;
    for line in lines {
        count += 1;
        // Each clause line is space-separated signed numbers ending in 0,
        // every variable within the allocated range.
        let numbers = line
            .split(' ')
            .map(|t| t.parse::<i64>().unwrap())
            .collect::<Vec<_>>();
        assert_eq!(*numbers.last().unwrap(), 0);
        for number in &numbers[..numbers.len() - 1] {
            assert!(*number != 0);
            assert!((number.unsigned_abs() as usize) <= variables);
        }
        // The formula deduplicates: no clause line repeats.
        assert!(seen.insert(line.to_string()));
    }
    assert_eq!(count, clauses);
}

#[test]
fn it_reuses_no_variable_number_and_skips_none() {
    let formula = encode(2, 3, &[1]);

    for (i, variable) in formula.variables.iter().enumerate() {
        assert_eq!(variable.number, i + 1);
    }
}
