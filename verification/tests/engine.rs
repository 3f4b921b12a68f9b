use quill::engine::{Game, Player};

#[test]
fn test_player_creation() {
    let player = Player::new("Max".to_string());

    assert_eq!(player.name, "Max");
}

#[test]
fn test_game_creation() {
    let game = Game::new("Max".to_string(), "AJ".to_string());

    assert_eq!(game.player1.name, "Max");
    assert_eq!(game.player2.name, "AJ");
    assert_eq!(game.current_turn, 1);
}
