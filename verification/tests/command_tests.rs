use connect4::bitboard::BitBoard;
use connect4::board::Board;
use connect4::command::{
    is_handshake, parse_command, parse_number, parse_words, read_reply, words, Command,
    CommandParseError,
    CommandType, EngineOption, Reply,
};
use connect4::player::Player;
use connect4::protocol::{apply, must_stop, Action};
use connect4::session::Session;

fn kind(line: &str) -> CommandType {
    match parse_command(line) {
        Ok(command) => command.get_type(),
        Err(e) => panic!("{} is no command: {}", line, e.message()),
    }
}

fn error(line: &str) -> CommandParseError {
    match parse_command(line) {
        Ok(_) => panic!("{} is a command", line),
        Err(e) => e,
    }
}

#[test]
fn words_are_split_at_white_space() {
    assert_eq!(words("  go   time\t100000 \n"), vec!["go", "time", "100000"]);
    assert_eq!(words("stop"), vec!["stop"]);
    assert!(words("").is_empty());
    assert!(words(" \t\r\n").is_empty());
    assert_eq!(words("a\u{2003}b"), vec!["a", "b"]);
}

#[test]
fn numbers_are_decimal() {
    assert_eq!(parse_number("0"), Some(0));
    assert_eq!(parse_number("007"), Some(7));
    assert_eq!(parse_number("+42"), Some(42));
    assert_eq!(parse_number("18446744073709551615"), Some(u64::MAX));
    assert_eq!(parse_number("18446744073709551616"), None);
    assert_eq!(parse_number("99999999999999999999999"), None);
    assert_eq!(parse_number(""), None);
    assert_eq!(parse_number("+"), None);
    assert_eq!(parse_number("-1"), None);
    assert_eq!(parse_number("12a"), None);
    assert_eq!(parse_number("1 2"), None);
    assert_eq!(parse_number("++1"), None);
}

#[test]
fn numbers_agree_with_the_standard_parser() {
    for text in ["0", "1", "+5", "00", "18446744073709551615", "18446744073709551616", "", "+",
        "-0", "1_000", "0x10", " 1", "٣"]
    {
        assert_eq!(parse_number(text), text.parse::<u64>().ok(), "{}", text);
    }
}

#[test]
fn plain_commands() {
    assert!(matches!(kind("c4i"), CommandType::C4i));
    assert!(matches!(kind("isready"), CommandType::Isready));
    assert!(matches!(kind("stop"), CommandType::Stop));
    assert!(matches!(kind("exit"), CommandType::Exit));
    assert!(matches!(kind("  exit  now"), CommandType::Exit));
}

#[test]
fn go_commands() {
    assert!(matches!(kind("go"), CommandType::GoInfinite));
    assert!(matches!(kind("go infinite"), CommandType::GoInfinite));
    assert!(matches!(kind("go time 100000"), CommandType::GoTime(100000)));
    assert!(matches!(error("go time"), CommandParseError::ExpectedArgument));
    assert!(matches!(error("go time soon"), CommandParseError::IOError));
    match error("go depth 3") {
        CommandParseError::UnknownArgument(word) => assert_eq!(word, "depth"),
        other => panic!("{:?}", other),
    }
}

#[test]
fn position_commands() {
    assert!(matches!(kind("position startpos"), CommandType::Startpos));
    match kind("position custom 5 18") {
        CommandType::CustomPosition(red, yellow) => {
            assert_eq!(red, BitBoard(5));
            assert_eq!(yellow, BitBoard(18));
        }
        _ => panic!("not a custom position"),
    }
    assert!(matches!(error("position"), CommandParseError::ExpectedArgument));
    assert!(matches!(error("position custom"), CommandParseError::ExpectedArgument));
    assert!(matches!(error("position custom 5"), CommandParseError::ExpectedArgument));
    assert!(matches!(error("position custom x 5"), CommandParseError::IOError));
    assert!(matches!(error("position custom 5 x"), CommandParseError::IOError));
    assert!(matches!(error("position custom x"), CommandParseError::IOError));
    match error("position fen 8/8") {
        CommandParseError::UnknownArgument(word) => assert_eq!(word, "fen"),
        other => panic!("{:?}", other),
    }
}

#[test]
fn setoption_commands() {
    assert!(matches!(
        kind("setoption turn red"),
        CommandType::SetOption(EngineOption::Turn(Player::Red))
    ));
    assert!(matches!(
        kind("setoption turn yellow"),
        CommandType::SetOption(EngineOption::Turn(Player::Yellow))
    ));
    assert!(matches!(error("setoption"), CommandParseError::ExpectedArgument));
    assert!(matches!(error("setoption turn"), CommandParseError::ExpectedArgument));
    match error("setoption turn blue") {
        CommandParseError::UnknownArgument(word) => assert_eq!(word, "blue"),
        other => panic!("{:?}", other),
    }
    match error("setoption hash 64") {
        CommandParseError::UnknownArgument(word) => assert_eq!(word, "hash"),
        other => panic!("{:?}", other),
    }
}

#[test]
fn unknown_and_empty_lines() {
    assert!(matches!(error(""), CommandParseError::ExpectedArgument));
    assert!(matches!(error("   \n"), CommandParseError::ExpectedArgument));
    match error("quit") {
        CommandParseError::UnknownCommand(word) => assert_eq!(word, "quit"),
        other => panic!("{:?}", other),
    }
    match error("C4I") {
        CommandParseError::UnknownCommand(word) => assert_eq!(word, "C4I"),
        other => panic!("{:?}", other),
    }
}

#[test]
fn parse_words_reads_the_words_it_is_given() {
    let line: Vec<String> = vec!["go".to_string(), "time".to_string(), "7".to_string()];
    let command: Command = parse_words(&line).unwrap();
    assert!(matches!(command.get_type(), CommandType::GoTime(7)));
    assert!(matches!(parse_words(&Vec::new()), Err(CommandParseError::ExpectedArgument)));
}

#[test]
fn error_messages() {
    assert_eq!(CommandParseError::IOError.message(), "unable to process user input correctly");
    assert_eq!(
        CommandParseError::ExpectedArgument.message(),
        "additional expected argument was not found"
    );
    assert_eq!(
        CommandParseError::UnknownCommand("quit".to_string()).message(),
        "invalid command: quit"
    );
    assert_eq!(
        CommandParseError::UnknownArgument("blue".to_string()).message(),
        "invalid argument: blue"
    );
}

#[test]
fn engine_replies() {
    assert_eq!(read_reply("bestmove 3"), Reply::BestMove(3));
    assert_eq!(read_reply("  bestmove 0  "), Reply::BestMove(0));
    assert_eq!(read_reply("bestmove"), Reply::Broken);
    assert_eq!(read_reply("bestmove None"), Reply::Broken);
    assert_eq!(read_reply("bestmove3"), Reply::Broken);
    assert_eq!(read_reply("bestmoves 4"), Reply::BestMove(4));
    assert_eq!(read_reply("info rounds 2048"), Reply::Other);
    assert_eq!(read_reply("best"), Reply::Other);
    assert_eq!(read_reply(""), Reply::Other);
}

#[test]
fn commands_change_the_position() {
    let mut board = Board::default();
    assert_eq!(apply(&mut board, kind("position custom 5 18")), Action::Nothing);
    assert_eq!(board.red, BitBoard(5));
    assert_eq!(board.yellow, BitBoard(18));
    assert_eq!(board.turn, Player::Yellow);
    assert_eq!(apply(&mut board, kind("setoption turn red")), Action::Nothing);
    assert_eq!(board.turn, Player::Red);
    assert_eq!(board.red, BitBoard(5));
    assert_eq!(apply(&mut board, kind("position startpos")), Action::Nothing);
    assert_eq!(board, Board::default());
}

#[test]
fn commands_leave_work_to_the_loop() {
    let mut board = Board { yellow: BitBoard(1), red: BitBoard(2), turn: Player::Red };
    let before = board;
    assert_eq!(apply(&mut board, kind("c4i")), Action::Identify);
    assert_eq!(apply(&mut board, kind("isready")), Action::Ready);
    assert_eq!(apply(&mut board, kind("go")), Action::Search(None));
    assert_eq!(apply(&mut board, kind("go time 100000")), Action::Search(Some(100000)));
    assert_eq!(apply(&mut board, kind("stop")), Action::Stop);
    assert_eq!(apply(&mut board, kind("exit")), Action::Quit);
    assert_eq!(board, before);
}

#[test]
fn a_search_stops_on_time_or_on_request() {
    assert!(!must_stop(99_999, Some(100_000), false));
    assert!(!must_stop(100_000, Some(100_000), false));
    assert!(must_stop(100_001, Some(100_000), false));
    assert!(must_stop(0, Some(100_000), true));
    assert!(!must_stop(u128::MAX, None, false));
    assert!(must_stop(0, None, true));
}

#[test]
fn sessions_add_up() {
    let won = Session::of_game(Some(Player::Yellow), Player::Yellow);
    let lost = Session::of_game(Some(Player::Red), Player::Yellow);
    let drawn = Session::of_game(None, Player::Red);
    assert_eq!(won.results(), (1, 0, 0));
    assert_eq!(lost.results(), (0, 0, 1));
    assert_eq!(drawn.results(), (0, 1, 0));
    let all = Session::default() + won + lost + drawn + won;
    assert_eq!(all.games_played(), 4);
    assert_eq!(all.results(), (2, 1, 1));
}

#[test]
fn the_handshake_is_the_word_c4iok() {
    assert!(is_handshake("c4iok"));
    assert!(is_handshake("C4IOK"));
    assert!(is_handshake("  c4iOk \n"));
    assert!(!is_handshake("c4i ok"));
    assert!(!is_handshake("c4iok now"));
    assert!(!is_handshake("c4iokk"));
    assert!(!is_handshake("c4io"));
    assert!(!is_handshake("c\u{14}iok"));
    assert!(!is_handshake(""));
    for line in ["c4iok", "C4iOK", "c4ioK ", "k4ioc", "c4iok\t", "c4i0k", "C\u{14}IOK"] {
        assert_eq!(is_handshake(line), line.trim().eq_ignore_ascii_case("c4iok"), "{}", line);
    }
}
