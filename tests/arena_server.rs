use socket_snake::server::{board_line, Server, YardCtrl, YardInfo};
use socket_snake::render::Color;
use socket_snake::yard::{Coord, Direction, YardBlockType, YardSim, MAX_PLAYERS, STALL_TICKS};

fn failures(infos: &[YardInfo]) -> Vec<u64> {
    infos
        .iter()
        .filter_map(|i| match i {
            YardInfo::Failed(id) => Some(*id),
            _ => None,
        })
        .collect()
}

fn step(c: Coord, d: Direction, rows: usize, cols: usize) -> Option<Coord> {
    match d {
        Direction::L if c.1 > 0 => Some(Coord(c.0, c.1 - 1)),
        Direction::R if c.1 + 1 < cols => Some(Coord(c.0, c.1 + 1)),
        Direction::U if c.0 > 0 => Some(Coord(c.0 - 1, c.1)),
        Direction::D if c.0 + 1 < rows => Some(Coord(c.0 + 1, c.1)),
        _ => None,
    }
}

#[test]
fn board_line_formats_name_and_score() {
    assert_eq!(board_line(&"bob".to_string(), 42), "bob: 42");
    assert_eq!(board_line(&"I am Groot".to_string(), 0), "I am Groot: 0");
    assert_eq!(board_line(&String::new(), 1234567890), ": 1234567890");
    assert_eq!(board_line(&"x".to_string(), 10), "x: 10");
}

#[test]
fn first_player_waits_then_moves() {
    let mut s = Server::new();
    assert!(s.register(7, "first".to_string()));
    assert_eq!(s.slot_of(7), Some(0));
    let y = s.yard();
    assert_eq!((y.width(), y.height(), y.bean_target()), (30, 20, 5));
    let cells = y.snake_cells(0).unwrap();
    assert_eq!(cells.len(), 3);
    let d = y.direction_of(0).unwrap();
    assert_eq!(y.block_at(cells[0]), Some(YardBlockType::Head(0, d)));
    assert_eq!(y.block_at(cells[1]), Some(YardBlockType::Body(0)));
    assert_eq!(y.block_at(cells[2]), Some(YardBlockType::Body(0)));
    assert_eq!(y.stall_of(0), STALL_TICKS);
    assert_eq!(STALL_TICKS, 10);
    for _ in 0..10 {
        let infos = s.tick();
        assert!(failures(&infos).is_empty());
        assert_eq!(s.yard().snake_cells(0).unwrap(), cells);
    }
    let infos = s.tick();
    match step(cells[0], d, 20, 30) {
        Some(next) => {
            assert!(failures(&infos).is_empty());
            let now = s.yard().snake_cells(0).unwrap();
            assert_eq!(now[0], next);
            assert_eq!(now[1], cells[0]);
        }
        None => {
            assert_eq!(failures(&infos), vec![7]);
            assert_eq!(s.slot_of(7), None);
        }
    }
}

#[test]
fn converging_players_one_eliminated() {
    let mut s = Server::from_yard(YardSim::with_empty_grid(30, 20, 5, 3));
    assert!(s.register_at(111, "a".to_string(), Coord(12, 4), Direction::U));
    assert!(s.register_at(222, "b".to_string(), Coord(13, 10), Direction::L));
    assert_eq!(s.slot_of(111), Some(0));
    assert_eq!(s.slot_of(222), Some(1));
    assert!(s.handle_ctrl(YardCtrl::CtrlSnake(111, Direction::R)).is_none());
    assert!(s.handle_ctrl(YardCtrl::CtrlSnake(222, Direction::U)).is_none());
    let mut eliminated = Vec::new();
    for _ in 0..14 {
        let infos = s.tick();
        let n = infos.len();
        assert!(matches!(infos[n - 2], YardInfo::Board(_)));
        assert!(matches!(infos[n - 1], YardInfo::RefreshScreen(_)));
        eliminated.extend(failures(&infos));
    }
    // slot 0 ran into slot 1's head: the lower slot fails alone
    assert_eq!(eliminated, vec![111]);
    assert_eq!(s.slot_of(111), None);
    assert_eq!(s.slot_of(222), Some(1));
    assert_eq!(s.yard().snake_cells(1).unwrap()[0], Coord(9, 8));
    assert!(!s.dispatch_control(111, Direction::L));
}

#[test]
fn join_answers_only_when_accepted() {
    let mut s = Server::new();
    for k in 0..MAX_PLAYERS as u64 {
        match s.handle_ctrl(YardCtrl::NewSnake(100 + k, format!("p{}", k))) {
            Some(YardInfo::RegisteredSnake(id, true)) => assert_eq!(id, 100 + k),
            _ => panic!("join refused"),
        }
    }
    assert!(s.handle_ctrl(YardCtrl::NewSnake(999, "late".to_string())).is_none());
    assert_eq!(s.slot_of(999), None);
    assert!(!s.register(998, "later".to_string()));
}

#[test]
fn unknown_client_move_is_discarded() {
    let mut s = Server::new();
    assert!(!s.dispatch_control(5, Direction::U));
    assert!(s.handle_ctrl(YardCtrl::CtrlSnake(5, Direction::U)).is_none());
    assert!(s.register(5, "five".to_string()));
    assert!(s.dispatch_control(5, Direction::U));
    assert_eq!(s.slot_of(5), Some(0));
}

#[test]
fn board_lists_scoring_players() {
    let mut y = YardSim::with_empty_grid(30, 20, 1, 2);
    assert!(y.place_bean(Coord(5, 2)));
    let mut s = Server::from_yard(y);
    assert!(s.register_at(1, "ann".to_string(), Coord(5, 0), Direction::R));
    assert!(s.register_at(2, "ben".to_string(), Coord(15, 0), Direction::R));
    let mut last = Vec::new();
    for _ in 0..11 {
        last = s.tick();
    }
    let board = match &last[last.len() - 2] {
        YardInfo::Board(b) => b.clone(),
        _ => panic!("no board"),
    };
    assert_eq!(board, vec![(Color::DarkGrey, "ann: 1".to_string())]);
}

#[test]
fn snapshot_matches_yard() {
    let s = Server::new();
    match s.snapshot() {
        YardInfo::RefreshScreen(buf) => {
            assert_eq!(buf.len(), 20);
            assert_eq!(buf[0].len(), 30);
        }
        _ => panic!("not a snapshot"),
    }
}
