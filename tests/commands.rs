use kaissa::commands::{parse_go_command, parse_option_command, parse_position_command};

#[test]
fn position_command_with_start_position() {
    let p = parse_position_command(" startpos moves e2e4 e7e5");
    assert!(!p.is_fen);
    assert_eq!(p.position, "startpos");
    assert_eq!(p.moves, vec!["e2e4".to_string(), "e7e5".to_string()]);
    let bare = parse_position_command(" startpos");
    assert!(!bare.is_fen);
    assert!(bare.moves.is_empty());
    let empty = parse_position_command("");
    assert!(!empty.is_fen);
    assert_eq!(empty.position, "");
    assert!(empty.moves.is_empty());
}

#[test]
fn position_command_with_fen() {
    let p = parse_position_command(" fen 4k3/8/4K3/8/8/8/8/7R  w - - 0 1 moves h1h8 e8d8");
    assert!(p.is_fen);
    assert_eq!(p.position, "4k3/8/4K3/8/8/8/8/7R w - - 0 1");
    assert_eq!(p.moves, vec!["h1h8".to_string(), "e8d8".to_string()]);
    let no_moves = parse_position_command("fen 8/8/8/8/8/8/8/8 b - - 3 9");
    assert_eq!(no_moves.position, "8/8/8/8/8/8/8/8 b - - 3 9");
    assert!(no_moves.moves.is_empty());
}

#[test]
fn go_command_fields() {
    let g = parse_go_command(" depth 3 movetime 1500 wtime x infinite");
    assert_eq!(g.depth, Some(3));
    assert_eq!(g.movetime, Some(1500));
    assert_eq!(g.wtime, None);
    assert!(g.infinite);
    let h = parse_go_command(" nodes -5 mate +2 winc +10 btime -1 binc 7 movestogo 40");
    assert_eq!(h.nodes, Some(-5));
    assert_eq!(h.mate, Some(2));
    assert_eq!(h.winc, Some(10));
    assert_eq!(h.btime, None);
    assert_eq!(h.binc, Some(7));
    assert_eq!(h.movestogo, Some(40));
    assert!(!h.infinite);
    let cut = parse_go_command(" depth");
    assert_eq!(cut.depth, None);
    let big = parse_go_command(" movetime 18446744073709551616 depth 2147483648");
    assert_eq!(big.movetime, None);
    assert_eq!(big.depth, None);
    let last = parse_go_command(" depth 2 depth 6 movetime 18446744073709551615");
    assert_eq!(last.depth, Some(6));
    assert_eq!(last.movetime, Some(u64::MAX));
}

#[test]
fn option_command_fields() {
    let o = parse_option_command(" name Hash value 128");
    assert_eq!(o.name, "Hash");
    assert_eq!(o.value, "128");
    let cut = parse_option_command(" name");
    assert_eq!(cut.name, "");
    assert_eq!(cut.value, "");
    let other = parse_option_command(" value 3 extra name Threads");
    assert_eq!(other.name, "Threads");
    assert_eq!(other.value, "3");
}
