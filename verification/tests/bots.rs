use huginn::{AiPlayer, Game, GameView, PlayerAction, RavenBot, Ruleset};

#[test]
fn bot_returns_an_authoritatively_legal_opening() {
    let game = Game::new(Ruleset::Classic);
    let mut bot = RavenBot::default();
    let PlayerAction::Move { movement } = bot
        .choose_action(&GameView::from_game(&game))
        .expect("bot action")
    else {
        panic!("classic opening cannot be a submission");
    };
    game.validate_move(movement).expect("legal bot move");
}
