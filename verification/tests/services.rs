use huginn::accounts::{
    check_actor, normalize_username, parse_ruleset, parse_seat, ruleset_name, validate_password,
    AccountError, ActorRefusal, Seating,
};
use huginn::flat::{Layout, NetworkConfig as FlatNetworkConfig};
use huginn::network::{ModelSize, NetworkConfig};
use huginn::training::{
    best_action_index, candidate_side, derived_seed, games_to_drop, selected_ruleset, splitmix64,
    tally_arena, ArenaReport, RuleSelection,
};
use huginn::{GameOutcome, OutcomeReason, Ruleset, Side};

#[test]
fn usernames_are_trimmed_and_lowercased() {
    assert_eq!(normalize_username("  Alice_01 \t"), Ok("alice_01".to_owned()));
    assert_eq!(normalize_username("bot-RAVEN"), Ok("bot-raven".to_owned()));
    assert_eq!(normalize_username("ab"), Err(AccountError::InvalidUsername));
    assert_eq!(normalize_username(" a b "), Err(AccountError::InvalidUsername));
    assert_eq!(normalize_username("abcdefghijklmnopqrstuvwxy"), Err(AccountError::InvalidUsername));
    assert_eq!(normalize_username("abcdefghijklmnopqrstuvwx"), Ok("abcdefghijklmnopqrstuvwx".to_owned()));
    assert_eq!(normalize_username("émile"), Err(AccountError::InvalidUsername));
    assert_eq!(
        AccountError::InvalidUsername.message(),
        "username must be 3-24 letters, numbers, hyphens, or underscores"
    );
}

#[test]
fn passwords_have_eight_to_128_bytes() {
    assert_eq!(validate_password("short"), Err(AccountError::InvalidPassword));
    assert_eq!(validate_password("12345678"), Ok(()));
    assert_eq!(validate_password(&"x".repeat(128)), Ok(()));
    assert_eq!(validate_password(&"x".repeat(129)), Err(AccountError::InvalidPassword));
    assert_eq!(AccountError::InvalidPassword.message(), "password must be 8-128 characters");
}

#[test]
fn rulesets_and_seats_are_named() {
    assert_eq!(parse_ruleset("classic"), Ok(Ruleset::Classic));
    assert_eq!(parse_ruleset("multiverse"), Ok(Ruleset::Multiverse));
    assert_eq!(parse_ruleset("Classic"), Err(AccountError::UnknownRuleset));
    assert_eq!(AccountError::UnknownRuleset.message(), "unknown ruleset");
    assert_eq!(ruleset_name(Ruleset::Multiverse), "multiverse");
    assert_eq!(parse_ruleset(ruleset_name(Ruleset::Classic)), Ok(Ruleset::Classic));
    assert_eq!(parse_ruleset(ruleset_name(Ruleset::Multiverse)), Ok(Ruleset::Multiverse));
    assert_eq!(parse_seat("attacker"), Some(Side::Attacker));
    assert_eq!(parse_seat("defender"), Some(Side::Defender));
    assert_eq!(parse_seat("king"), None);
}

#[test]
fn splitmix_matches_its_reference_output() {
    assert_eq!(splitmix64(0), 0xe220_a839_7b1d_cdaf);
    assert_eq!(derived_seed(0, 0, 0, 0), splitmix64(0));
    assert_eq!(derived_seed(1, 2, 3, 4), 0xcc40_c4e3_f3d6_3596);
}

#[test]
fn mixed_schedule_alternates_rulesets() {
    let rulesets: Vec<Ruleset> = (0..4).map(|index| selected_ruleset(RuleSelection::Both, index)).collect();
    assert_eq!(
        rulesets,
        vec![Ruleset::Classic, Ruleset::Multiverse, Ruleset::Classic, Ruleset::Multiverse]
    );
    assert_eq!(selected_ruleset(RuleSelection::Multiverse, 3), Ruleset::Multiverse);
    assert_eq!(candidate_side(RuleSelection::Classic, 1), Side::Defender);
    assert_eq!(candidate_side(RuleSelection::Classic, 2), Side::Attacker);
}

#[test]
fn arena_tally_counts_each_game_once() {
    let win = |winner| Some(GameOutcome { winner, reason: OutcomeReason::KingCaptured });
    let results = vec![
        (Side::Attacker, win(Side::Attacker)),
        (Side::Defender, win(Side::Attacker)),
        (Side::Defender, None),
        (Side::Defender, win(Side::Defender)),
    ];
    assert_eq!(
        tally_arena(&results),
        ArenaReport { candidate_wins: 2, incumbent_wins: 1, draws: 1 }
    );
    assert_eq!(tally_arena(&Vec::new()), ArenaReport::default());
}

#[test]
fn network_sizes_are_fixed() {
    assert_eq!(NetworkConfig::from(ModelSize::Compact), NetworkConfig::compact());
    assert_eq!(NetworkConfig::from(ModelSize::Large), NetworkConfig::large());
    assert_eq!(NetworkConfig::default(), NetworkConfig::large());
    assert_eq!(ModelSize::default(), ModelSize::Large);
    assert_eq!(NetworkConfig::compact().channels, 24);
    assert_eq!(NetworkConfig::large().residual_blocks, 6);
    assert_eq!(NetworkConfig::tiny().group_norm_groups, 4);
}

#[test]
fn flat_layout_places_every_block() {
    assert_eq!(FlatNetworkConfig::default().hidden, 48);
    let layout = Layout::new(48);
    assert_eq!(layout.w1, 0);
    assert_eq!(layout.b1, 18_432);
    assert_eq!(layout.w2, 18_480);
    assert_eq!(layout.b2, 20_784);
    assert_eq!(layout.wv, 20_832);
    assert_eq!(layout.bv, 20_880);
    assert_eq!(layout.wa, 20_881);
    assert_eq!(layout.ba, 22_033);
    assert_eq!(layout.len, 22_081);
}

#[test]
fn only_the_seated_player_to_move_may_act() {
    let seating = Seating { attacker: 7, defender: 9 };
    assert_eq!(seating.side_of(9), Some(Side::Defender));
    assert_eq!(seating.side_of(3), None);
    assert_eq!(seating.user_for(Side::Attacker), 7);
    assert_eq!(check_actor(4, 3, true, false, Side::Attacker, seating, 7), Err(ActorRefusal::Stale));
    assert_eq!(check_actor(4, 4, false, false, Side::Attacker, seating, 7), Err(ActorRefusal::Finished));
    assert_eq!(check_actor(4, 4, true, true, Side::Attacker, seating, 7), Err(ActorRefusal::Finished));
    assert_eq!(check_actor(4, 4, true, false, Side::Defender, seating, 7), Err(ActorRefusal::NotYourTurn));
    assert_eq!(check_actor(4, 4, true, false, Side::Defender, seating, 9), Ok(()));
    assert_eq!(ActorRefusal::NotYourTurn.message(), "it is not your turn");
}

#[test]
fn replay_window_drops_oldest_games_until_it_fits() {
    assert_eq!(games_to_drop(&vec![3, 4, 5], 9), 1);
    assert_eq!(games_to_drop(&vec![3, 4, 5], 12), 0);
    assert_eq!(games_to_drop(&vec![3, 4, 5], 4), 2);
    assert_eq!(games_to_drop(&vec![10], 1), 0);
    assert_eq!(games_to_drop(&vec![], 0), 0);
}

#[test]
fn most_visited_action_is_chosen_last_on_ties() {
    assert_eq!(best_action_index(&vec![1, 5, 2, 5]), Some(3));
    assert_eq!(best_action_index(&vec![7, 3]), Some(0));
    assert_eq!(best_action_index(&vec![]), None);
}

#[test]
fn usernames_shed_every_unicode_space() {
    assert_eq!(normalize_username("\u{3000}Alice\u{2009}\u{85}"), Ok("alice".to_owned()));
    assert_eq!(normalize_username("\u{200b}alice"), Err(AccountError::InvalidUsername));
}
