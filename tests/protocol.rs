use chess_core::uci::UciEngine;
use chess_core::Error;

#[test]
fn test_uci_commands() {
    let mut engine = UciEngine::new();

    let response = engine.handle_command("uci").unwrap();
    assert!(response.unwrap().contains("Castono Chess Engine"));

    let response = engine.handle_command("isready").unwrap();
    assert_eq!(response, Some("readyok".to_string()));

    let response = engine.handle_command("ucinewgame").unwrap();
    assert_eq!(response, None);
}

#[test]
fn test_position_commands() {
    let mut engine = UciEngine::new();

    engine.handle_command("position startpos").unwrap();

    engine.handle_command("position startpos moves e2e4 e7e5").unwrap();

    let fen = "rnbqkbnr/pppppppp/8/8/8/8/PPPPPPPP/RNBQKBNR w KQkq - 0 1";
    engine.handle_command(&format!("position fen {}", fen)).unwrap();
}

#[test]
fn go_reports_a_best_move() {
    let mut engine = UciEngine::new();
    engine.handle_command("position startpos moves e2e4").unwrap();
    let response = engine.handle_command("go depth 1").unwrap().unwrap();
    assert!(response.starts_with("bestmove "));
    assert!(response.contains("\ninfo depth 1 score cp "));
}

#[test]
fn go_without_moves_reports_the_null_move() {
    let mut engine = UciEngine::new();
    engine.handle_command("position fen 8/8/8/8/8/8/8/8 w - - 0 1").unwrap();
    let response = engine.handle_command("go depth 2").unwrap();
    assert_eq!(response, Some("bestmove 0000".to_string()));
}

#[test]
fn protocol_odds_and_ends() {
    let mut engine = UciEngine::new();
    assert_eq!(engine.handle_command("   ").unwrap(), None);
    assert_eq!(engine.handle_command("stop").unwrap(), None);
    assert_eq!(engine.handle_command("quit").unwrap(), None);
    assert_eq!(engine.handle_command("setoption name Hash value 1").unwrap(), None);
    assert_eq!(engine.handle_command("register").unwrap(), None);
    assert_eq!(engine.handle_command("debug on").unwrap(), Some("Debug mode enabled".to_string()));
    assert_eq!(engine.handle_command("debug off").unwrap(), Some("Debug mode disabled".to_string()));
    assert_eq!(engine.handle_command("hello").unwrap(), Some("Unknown command".to_string()));
}

#[test]
fn protocol_errors() {
    let mut engine = UciEngine::new();
    assert!(matches!(engine.handle_command("position"), Err(Error::InvalidPosition(_))));
    assert!(matches!(engine.handle_command("position nowhere"), Err(Error::InvalidPosition(_))));
    assert!(matches!(engine.handle_command("position fen"), Err(Error::InvalidFen(_))));
    assert!(matches!(engine.handle_command("position fen 8/8 w - -"), Err(Error::InvalidFen(_))));
    assert!(matches!(
        engine.handle_command("position startpos moves e3e4"),
        Err(Error::InvalidMove(_))
    ));
    assert!(matches!(
        engine.handle_command("position startpos moves e2"),
        Err(Error::InvalidMove(_))
    ));
    assert!(matches!(
        engine.handle_command("position startpos moves e7e8x"),
        Err(Error::InvalidMove(_))
    ));
}
