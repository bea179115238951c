use battle_sheep_solver::board::Board;

#[test]
fn win_evaluates_as_winners_advantage() {
    let max_wins = "
  +14 +1   0   0
-15 +1  -1   0
"
    .trim_matches('\n');
    assert!(Board::parse(max_wins).unwrap().heuristic_evaluate() > 0);
}

#[test]
fn end_with_equal_controlled_tiles_considers_field_size() {
    let max_has_greater_field = "
  +15 -1   0   0
-15 +1   0   0
"
    .trim_matches('\n');
    assert!(
        Board::parse(max_has_greater_field)
            .unwrap()
            .heuristic_evaluate()
            > 0
    );
}

#[test]
fn draw_evaluates_as_zero() {
    let draw = "
  +1   0  -1  +14
-14 +1   0  -1
"
    .trim_matches('\n');
    assert!(Board::parse(draw).unwrap().heuristic_evaluate() == 0);
}

#[test]
fn in_end_tile_count_weighs_more_than_field_size() {
    let min_wins = "
             0   0
  +8  -1   0  -1
-14 +8
"
    .trim_matches('\n');
    assert!(Board::parse(min_wins).unwrap().heuristic_evaluate() < 0);
}

#[test]
fn a_large_stack_with_an_empty_neighbor_keeps_the_game_going() {
    let min_can_move = "
     0
   0   0   0
     0   0
  -15
+16 -1   0   0   0   0   0   0   0   0
"
    .trim_matches('\n');
    /* Blocked scores: 14 * 5 against Min, 15 * 6 against Max. Min's stacks differ by 14. */
    assert_eq!(
        Board::parse(min_can_move).unwrap().heuristic_evaluate(),
        70 - 90 + 7
    );
    let both_can_move = "
     0
   0  -15  0
     0   0
  -1
+16  0   0   0   0   0   0   0   0   0
"
    .trim_matches('\n');
    /* Blocked scores: 14 * 1 against Min, 15 * 5 against Max. */
    assert_eq!(
        Board::parse(both_can_move).unwrap().heuristic_evaluate(),
        14 - 75 + 7
    );
}

#[test]
fn even_split_evaluates_higher_than_uneven() {
    let max_has_even_split = "
  -4   0   0  +8
-12  0   0  +8
"
    .trim_matches('\n');
    assert!(
        Board::parse(max_has_even_split)
            .unwrap()
            .heuristic_evaluate()
            > 0
    );
}

#[test]
fn less_blocked_evaluates_higher_than_blocked() {
    let max_is_less_blocked = "
     0      -8  -8
   0  +8   0   0
 0  +8       0
"
    .trim_matches('\n');
    assert!(
        Board::parse(max_is_less_blocked)
            .unwrap()
            .heuristic_evaluate()
            > 0
    );
}

#[test]
fn blocked_stacks_count_against_their_owner() {
    let input = "
   0  +2
-2   0  -3  +3
   0           0
"
    .trim_matches('\n');
    /* The blocked scores are 4 and 10 for the second player, 3 and 10 for the first. */
    assert_eq!(Board::parse(input).unwrap().heuristic_evaluate(), -1);
}

#[test]
fn uneven_stacks_count_against_their_owner() {
    let max_has_even_split = "
  -4   0   0  +8
-12  0   0  +8
"
    .trim_matches('\n');
    /* Blocked scores: 3 * 4 and 11 * 5 against the first player, 7 * 5 and 7 * 4 against the
     * second. The first player's stacks differ by 8, which counts 4 against that player. */
    assert_eq!(
        Board::parse(max_has_even_split)
            .unwrap()
            .heuristic_evaluate(),
        12 + 55 - 35 - 28 + 4
    );
}

#[test]
fn a_player_without_stacks_has_an_uneven_score_of_minus_127() {
    /* The stack has 5 blocked sides: 4 * 5 = 20 against the first player. The second
     * player has no stack, which counts -127 against that player. */
    assert_eq!(Board::parse("-5   0   0").unwrap().heuristic_evaluate(), 20 + 127);
}

#[test]
fn finished_game_evaluates_to_a_million_for_the_winner() {
    let max_wins = "
  +15 -1   0   0
-15 +1   0   0
"
    .trim_matches('\n');
    assert_eq!(Board::parse(max_wins).unwrap().heuristic_evaluate(), 1_000_000);
    let min_wins = "
             0   0
  +8  -1   0  -1
-14 +8
"
    .trim_matches('\n');
    assert_eq!(Board::parse(min_wins).unwrap().heuristic_evaluate(), -1_000_000);
}

#[test]
fn board_without_stacks_is_a_draw() {
    assert_eq!(Board::parse(" 0   0").unwrap().heuristic_evaluate(), 0);
}

#[test]
fn largest_fields_are_counted_per_player() {
    let input = "
  +15 -1   0   0
-15 +1   0   0
"
    .trim_matches('\n');
    assert_eq!(Board::parse(input).unwrap().largest_connected_fields(), [1, 2]);
    let input = "
  -1  -1  +1
-1  +1   0  -1
  -1
"
    .trim_matches('\n');
    assert_eq!(Board::parse(input).unwrap().largest_connected_fields(), [4, 1]);
    assert_eq!(Board::parse(" 0").unwrap().largest_connected_fields(), [0, 0]);
}
