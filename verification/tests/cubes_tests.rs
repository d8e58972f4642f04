use puzzles::cubes::{Game, Games};

#[test]
fn test_games_check_colours() {
    let game1 = Game::new(1, 3, 4, 2);
    let game2 = Game::new(2, 2, 3, 1);
    let game3 = Game::new(3, 1, 2, 3);

    let games = Games { games: vec![game1, game2, game3] };

    let colours1 = vec![("blue", 2), ("red", 3), ("green", 1)];
    assert_eq!(games.check_colours(&colours1), 2);

    let colours2 = vec![("blue", 1), ("red", 1), ("green", 1)];
    assert_eq!(games.check_colours(&colours2), 0);

    let colours3 = vec![("blue", 4), ("red", 2), ("green", 3)];
    assert_eq!(games.check_colours(&colours3), 3);
}

#[test]
fn test_games_total_power() {
    let game1 = Game::new(1, 6, 4, 2);
    let game2 = Game::new(2, 4, 1, 3);

    let games = Games { games: vec![game1, game2] };

    assert_eq!(games.get_total_power(), 60);
}

#[test]
fn test_game_from_line() {
    let line1 = "Game 1: 3 blue, 4 red; 1 red, 2 green, 6 blue; 2 green";
    let game1 = Game::new(1, 6, 4, 2);
    assert_eq!(Game::from_line(line1), game1);

    let line2 = "Game 2: 2 blue, 3 red; 1 red, 1 green; 1 green";
    let game2 = Game::new(2, 2, 3, 1);
    assert_eq!(Game::from_line(line2), game2);

    let line3 = "Game 3: 1 blue, 2 red; 3 green";
    let game3 = Game::new(3, 1, 2, 3);
    assert_eq!(Game::from_line(line3), game3);
}

#[test]
fn test_game_power() {
    let game1 = Game::new(1, 6, 4, 2);
    assert_eq!(game1.get_game_power(), 48);

    let game2 = Game::new(2, 4, 1, 3);
    assert_eq!(game2.get_game_power(), 12);
}

#[test]
fn test_game_check_colours_single() {
    let game = Game::new(7, 3, 4, 2);
    assert!(game.check_colours(&vec![("blue", 3), ("red", 4), ("green", 2)]));
    assert!(!game.check_colours(&vec![("blue", 2), ("red", 4), ("green", 2)]));
}

#[test]
fn test_add_game() {
    let mut games = Games::new();
    games.add_game(Game::new(1, 1, 1, 1));
    games.add_game(Game::new(2, 2, 2, 2));
    assert_eq!(games.games.len(), 2);
    assert_eq!(games.games[1].id, 2);
}
