use strongsnake::api::ApiFlavor;
use strongsnake::matches::OpponentTarget;
use strongsnake::trainer::{build_trainer_matchups, trainer_targets, TrainerCounts};

fn owned(v: &[&str]) -> Vec<String> {
    v.iter().map(|s| s.to_string()).collect()
}

#[test]
fn targets_are_sorted_once_each() {
    let t = trainer_targets(&owned(&["snek-two", "local-old", "http://x", "local-old", "Local"]), true);
    assert_eq!(t, owned(&["Local", "http://x", "local", "local-old", "snek-two"]));
    assert_eq!(trainer_targets(&Vec::new(), false), owned(&["local-old"]));
    assert_eq!(trainer_targets(&Vec::new(), true), owned(&["local", "local-old"]));
    assert_eq!(trainer_targets(&owned(&["b", "ab", "a", "b"]), false), owned(&["a", "ab", "b"]));
}

#[test]
fn matchups_resolve_targets_and_games() {
    let m = build_trainer_matchups(&owned(&["local", "local-old", "snek-two"]), false, false, ApiFlavor::Auto, 0, 7);
    assert_eq!(m.len(), 3);
    assert_eq!(m[0].label, "local");
    assert_eq!(m[0].target, OpponentTarget::Local);
    assert_eq!(m[0].games, 1);
    assert_eq!(m[1].target, OpponentTarget::Http { url: "http://localhost:9000".to_owned(), flavor: ApiFlavor::Standard });
    assert_eq!(m[1].games, 7);
    assert_eq!(m[2].target, OpponentTarget::Http { url: "http://localhost:7000".to_owned(), flavor: ApiFlavor::Legacy });
    let legacy = build_trainer_matchups(&owned(&["local-old"]), false, true, ApiFlavor::Standard, 2, 3);
    assert_eq!(legacy[0].target, OpponentTarget::Http { url: "http://localhost:9000".to_owned(), flavor: ApiFlavor::Legacy });
}

#[test]
fn only_http_falls_back_to_the_local_engine() {
    let m = build_trainer_matchups(&owned(&["local", "unknown-name"]), true, false, ApiFlavor::Auto, 4, 9);
    assert_eq!(m.len(), 1);
    assert_eq!(m[0].label, "local");
    assert_eq!(m[0].target, OpponentTarget::Local);
    assert_eq!(m[0].games, 4);
}

#[test]
fn counts_are_normalized() {
    let mut c = TrainerCounts { pop: 0, gens: 0, elite: 9, games: 0, http_games: 0, self_games: 3 };
    c.normalize();
    assert_eq!(c, TrainerCounts { pop: 2, gens: 1, elite: 2, games: 1, http_games: 1, self_games: 3 });
    let mut d = TrainerCounts { pop: 30, gens: 25, elite: 0, games: 5, http_games: 5, self_games: 4 };
    d.normalize();
    assert_eq!(d.elite, 1);
    assert_eq!(d.pop, 30);
}
