use huginn::training::{candidate_side, RuleSelection};
use huginn::Side;

#[test]
fn mixed_arena_alternates_colours_within_each_ruleset() {
    let sides = (0..8)
        .map(|index| candidate_side(RuleSelection::Both, index))
        .collect::<Vec<_>>();
    assert_eq!(
        sides,
        vec![
            Side::Attacker,
            Side::Attacker,
            Side::Defender,
            Side::Defender,
            Side::Attacker,
            Side::Attacker,
            Side::Defender,
            Side::Defender,
        ]
    );
}
