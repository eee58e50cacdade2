use bucket::{accept_answer, decide_params, parse_handshake, Args, ParamsDecision};

fn args(game: Option<&str>, version: Option<&str>, silent: bool) -> Args {
    Args {
        game: game.map(|g| g.to_string()),
        game_version: version.map(|v| v.to_string()),
        install_dir: "./game".to_string(),
        silent,
    }
}

#[test]
fn silent_with_game_is_ready() {
    assert_eq!(
        decide_params(&args(Some("g1"), Some("v2"), true)),
        ParamsDecision::Ready { game: "g1".to_string(), version: "v2".to_string() }
    );
    assert_eq!(
        decide_params(&args(Some("g1"), None, true)),
        ParamsDecision::Ready { game: "g1".to_string(), version: String::new() }
    );
}

#[test]
fn silent_without_game_is_refused() {
    assert_eq!(decide_params(&args(None, Some("v"), true)), ParamsDecision::MissingGame);
}

#[test]
fn interactive_asks() {
    assert_eq!(decide_params(&args(Some("g"), None, false)), ParamsDecision::Ask);
}

#[test]
fn empty_answer_keeps_value() {
    assert_eq!(accept_answer(&Some("g".to_string()), String::new()), Some("g".to_string()));
    assert_eq!(accept_answer(&None, String::new()), None);
    assert_eq!(accept_answer(&Some("g".to_string()), "h".to_string()), Some("h".to_string()));
}

#[test]
fn handshake_splits_at_one_slash() {
    assert_eq!(parse_handshake("abc/défg"), Some(("abc".to_string(), "défg".to_string())));
    assert_eq!(parse_handshake("/x"), Some((String::new(), "x".to_string())));
    assert_eq!(parse_handshake("abc"), None);
    assert_eq!(parse_handshake("a/b/c"), None);
}
