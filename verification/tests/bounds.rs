use superperm_sat::bounds::{Bounds, Span};

type Subject = Bounds;

const N: usize = 3;
const LENGTH: usize = 9;

fn span(start: usize, end: usize) -> Span {
    Span::new(start, end)
}

#[test]
fn it_builds_the_struct() {
    let subject = Subject::new(N, LENGTH, &[3, 5]);

    assert_eq!(subject.n, N);
    assert_eq!(subject.length_of_string, LENGTH);
    assert_eq!(subject.max_permutations, [3, 5]);
}

#[test]
fn it_returns_how_many_wasted_symbols_can_reach_the_goal_for_each_index() {
    let subject = Subject::new(N, LENGTH, &[3, 5]);

    assert_eq!(subject.allowed_waste(2), span(0, 1));
    assert_eq!(subject.allowed_waste(3), span(0, 1));
    assert_eq!(subject.allowed_waste(4), span(0, 1));
    assert_eq!(subject.allowed_waste(5), span(1, 2));
    assert_eq!(subject.allowed_waste(6), span(1, 2));
    assert_eq!(subject.allowed_waste(7), span(1, 2));
    assert_eq!(subject.allowed_waste(8), span(2, 2));
}

#[test]
fn it_returns_the_maximum_number_of_permutations_at_the_last_wasted_symbol() {
    let subject = Subject::new(N, 3, &[3, 5]);

    assert_eq!(subject.max_perms_at_last_waste(1, 2), 2);
    assert_eq!(subject.max_perms_at_last_waste(1, 3), 3);
    assert_eq!(subject.max_perms_at_last_waste(1, 4), 3);

    assert_eq!(subject.max_perms_at_last_waste(2, 4), 4);
    assert_eq!(subject.max_perms_at_last_waste(2, 5), 5);
    assert_eq!(subject.max_perms_at_last_waste(2, 6), 5);
}

#[test]
fn it_returns_zero_for_no_wasted_symbols() {
    let subject = Subject::new(N, 3, &[3, 5]);

    assert_eq!(subject.max_perms_at_last_waste(0, 1), 0);
    assert_eq!(subject.max_perms_at_last_waste(0, 2), 0);
}

#[test]
fn it_returns_the_maximum_permutations_for_the_number_of_wasted_symbols() {
    let subject = Subject::new(N, LENGTH, &[3, 5]);

    assert_eq!(subject.max_perms_added(0, 0), 3);
    assert_eq!(subject.max_perms_added(1, 0), 5);
}

#[test]
fn it_returns_n_factorial_if_the_max_permutation_isnt_known() {
    let subject = Subject::new(N, LENGTH, &[3, 5]);

    assert_eq!(subject.max_perms_added(2, 0), 6);
}

#[test]
fn it_returns_the_remainder_of_n_factorial_minus_the_current_permutations() {
    let subject = Subject::new(N, LENGTH, &[3, 5]);

    assert_eq!(subject.max_perms_added(2, 1), 5);
    assert_eq!(subject.max_perms_added(2, 2), 4);
    assert_eq!(subject.max_perms_added(2, 3), 3);
}

#[test]
fn it_returns_the_minimum_of_max_permutations_and_the_remainder() {
    let subject = Subject::new(N, LENGTH, &[3, 5]);

    assert_eq!(subject.max_perms_added(1, 2), 4);
}

#[test]
fn it_returns_the_index_of_the_goal() {
    let subject = Subject::new(N, LENGTH, &[]);
    assert_eq!(subject.goal_index(), LENGTH - 1);
}

#[test]
fn it_returns_the_number_of_wasted_symbols_for_the_goal() {
    let subject = Subject::new(N, LENGTH, &[]);
    assert_eq!(subject.goal_wasted_symbols(), 0);

    let subject = Subject::new(N, LENGTH, &[3]);
    assert_eq!(subject.goal_wasted_symbols(), 1);

    let subject = Subject::new(N, LENGTH, &[3, 5]);
    assert_eq!(subject.goal_wasted_symbols(), 2);
}

#[test]
fn it_returns_the_number_of_permutations_for_the_goal() {
    let subject = Subject::new(N, LENGTH, &[3, 5]);
    assert_eq!(subject.goal_permutations(), 5);
}

#[test]
fn it_returns_the_number_of_permutations_for_the_given_index_and_wasted_symbols() {
    let subject = Subject::new(N, 3, &[]);

    assert_eq!(subject.number_of_permutations(2, 0), Some(1));
    assert_eq!(subject.number_of_permutations(2, 1), Some(0));
    assert_eq!(subject.number_of_permutations(2, 2), None);

    assert_eq!(subject.number_of_permutations(3, 0), Some(2));
    assert_eq!(subject.number_of_permutations(3, 1), Some(1));
    assert_eq!(subject.number_of_permutations(3, 2), Some(0));
    assert_eq!(subject.number_of_permutations(3, 3), None);

    assert_eq!(subject.number_of_permutations(4, 0), Some(3));
    assert_eq!(subject.number_of_permutations(4, 1), Some(2));
    assert_eq!(subject.number_of_permutations(4, 2), Some(1));
    assert_eq!(subject.number_of_permutations(4, 3), Some(0));
    assert_eq!(subject.number_of_permutations(4, 4), None);
}

#[test]
fn it() {
    let subject = Subject::new(N, LENGTH, &[3, 5]);

    assert_eq!(subject.minimum_wasted_symbols(1), 0);
    assert_eq!(subject.minimum_wasted_symbols(2), 0);
    assert_eq!(subject.minimum_wasted_symbols(3), 0);

    assert_eq!(subject.minimum_wasted_symbols(4), 1);
    assert_eq!(subject.minimum_wasted_symbols(5), 1);

    assert_eq!(subject.minimum_wasted_symbols(6), 2);
    assert_eq!(subject.minimum_wasted_symbols(7), 2);
}

#[test]
fn it_decides_whether_the_waste_windows_are_feasible() {
    let feasible = Subject::new(N, LENGTH, &[3, 5]);
    assert!(feasible.waste_windows_feasible());
    assert!(feasible.has_admissible_waste(2));
    assert!(feasible.has_admissible_waste(8));

    // With ceilings of zero proven permutations, no waste count can still
    // reach the goal from the early positions.
    let infeasible = Subject::new(N, LENGTH, &[0, 0]);
    assert!(!infeasible.has_admissible_waste(2));
    assert!(!infeasible.waste_windows_feasible());
}

#[test]
fn it_finds_no_gap_inside_any_allowed_waste_window() {
    let subject = Subject::new(N, LENGTH, &[3, 5]);

    // The range form of allowed_waste assumes the admissible set is
    // contiguous: scan the whole set at every index and check it.
    for index in 2..LENGTH {
        let window = subject.allowed_waste(index);
        for w in window.start..=window.end {
            let current = match subject.number_of_permutations(index, w) {
                Some(p) => p,
                None => panic!("window contains an unreachable waste count"),
            };
            assert!(w >= subject.minimum_wasted_symbols(current));
            let checkpoint = subject.max_perms_at_last_waste(w, current);
            let additional = subject.max_perms_added(2 - w, checkpoint);
            assert!(checkpoint + additional >= subject.goal_permutations());
        }
    }
}
