use factor_game::game::{GameError, GameState, player_wins};

fn full_deck() -> Vec<u8> {
    (1..=23).collect()
}

#[test]
fn fresh_game_has_full_deck_and_zero_scores() {
    let game = GameState::new();
    assert_eq!(game.player_pts, 0);
    assert_eq!(game.enemy_pts, 0);
    assert_eq!(game.cards, full_deck());
}

#[test]
fn play_six_captures_one_two_three() {
    let mut game = GameState::new();
    assert_eq!(game.play(6), Ok(()));
    assert_eq!(game.player_pts, 6);
    assert_eq!(game.enemy_pts, 1 + 2 + 3);
    assert_eq!(game.cards.len(), 19);
    let expected: Vec<u8> = vec![4, 5, 7, 8, 9, 10, 11, 12, 13, 14, 15, 16, 17, 18, 19, 20, 21, 22, 23];
    assert_eq!(game.cards, expected);
}

#[test]
fn play_one_after_six_is_card_does_not_exist() {
    let mut game = GameState::new();
    assert_eq!(game.play(6), Ok(()));
    assert_eq!(game.play(1), Err(GameError::CardDoesNotExist));
    assert_eq!(game.player_pts, 6);
    assert_eq!(game.enemy_pts, 6);
    assert_eq!(game.cards.len(), 19);
}

#[test]
fn play_seventeen_captures_only_one() {
    let mut game = GameState::new();
    assert_eq!(game.play(17), Ok(()));
    assert_eq!(game.player_pts, 17);
    assert_eq!(game.enemy_pts, 1);
    let expected: Vec<u8> = (2..=23).filter(|&c| c != 17).collect();
    assert_eq!(game.cards, expected);
}

#[test]
fn play_two_captures_one() {
    let mut game = GameState::new();
    assert_eq!(game.play(2), Ok(()));
    assert_eq!(game.player_pts, 2);
    assert_eq!(game.enemy_pts, 1);
    let expected: Vec<u8> = (3..=23).collect();
    assert_eq!(game.cards, expected);
}

#[test]
fn play_one_on_fresh_deck_is_no_factors() {
    let mut game = GameState::new();
    assert_eq!(game.play(1), Err(GameError::NoFactors));
    assert_eq!(game.player_pts, 0);
    assert_eq!(game.enemy_pts, 0);
    assert_eq!(game.cards, full_deck());
}

#[test]
fn out_of_range_cards_are_card_does_not_exist() {
    let mut game = GameState::new();
    assert_eq!(game.play(0), Err(GameError::CardDoesNotExist));
    assert_eq!(game.play(24), Err(GameError::CardDoesNotExist));
    assert_eq!(game.play(255), Err(GameError::CardDoesNotExist));
    assert_eq!(game.player_pts, 0);
    assert_eq!(game.enemy_pts, 0);
    assert_eq!(game.cards, full_deck());
}

#[test]
fn replaying_a_removed_card_is_card_does_not_exist() {
    let mut game = GameState::new();
    assert_eq!(game.play(6), Ok(()));
    assert_eq!(game.play(6), Err(GameError::CardDoesNotExist));
    assert_eq!(game.play(3), Err(GameError::CardDoesNotExist));
}

#[test]
fn card_with_all_divisors_gone_is_no_factors() {
    let mut game = GameState::new();
    assert_eq!(game.play(2), Ok(()));
    // the divisors of 3 are 1 and itself; 1 left with the play of 2
    assert_eq!(game.play(3), Err(GameError::NoFactors));
    assert_eq!(game.player_pts, 2);
    assert_eq!(game.enemy_pts, 1);
    assert_eq!(game.cards, (3..=23).collect::<Vec<u8>>());
}

#[test]
fn failed_plays_leave_deck_size_unchanged() {
    let mut game = GameState::new();
    let before = game.cards.len();
    assert!(game.play(0).is_err());
    assert!(game.play(1).is_err());
    assert_eq!(game.cards.len(), before);
}

#[test]
fn successful_play_shrinks_deck_by_one_plus_factors() {
    let mut game = GameState::new();
    // 12 has divisors 1, 2, 3, 4, 6 in the fresh deck: five factors
    assert_eq!(game.play(12), Ok(()));
    assert_eq!(game.cards.len(), 23 - 1 - 5);
    assert_eq!(game.player_pts, 12);
    assert_eq!(game.enemy_pts, 1 + 2 + 3 + 4 + 6);
}

#[test]
fn tie_goes_to_the_enemy() {
    assert!(!player_wins(10, 10));
    assert!(!player_wins(9, 10));
    assert!(player_wins(11, 10));
}
