use socket_snake::yard::{Coord, Direction, YardBlockType, YardSim, MAX_PLAYERS, STALL_TICKS};

fn quiet_tick(y: &mut YardSim) {
    y.move_snakes();
    y.cleanup();
}

fn count_beans(y: &YardSim) -> usize {
    let mut n = 0;
    for r in 0..y.height() {
        for c in 0..y.width() {
            if y.block_at(Coord(r, c)) == Some(YardBlockType::Bean) {
                n += 1;
            }
        }
    }
    n
}

/// Every occupied cell belongs to exactly one live snake's segment, and
/// every segment is painted.
fn assert_occupancy(y: &YardSim) {
    let mut owned = 0;
    for id in 0..MAX_PLAYERS {
        if let Some(cells) = y.snake_cells(id) {
            assert!(!cells.is_empty());
            for (k, c) in cells.iter().enumerate() {
                for other in cells.iter().skip(k + 1) {
                    assert_ne!(c, other);
                }
                match y.block_at(*c) {
                    Some(YardBlockType::Head(o, _)) => {
                        assert_eq!(o, id);
                        assert_eq!(k, 0);
                    }
                    Some(YardBlockType::Body(o)) => {
                        assert_eq!(o, id);
                        assert!(k > 0);
                    }
                    other => panic!("segment {:?} of slot {} painted as {:?}", c, id, other),
                }
            }
            owned += cells.len();
        }
    }
    let mut occupied = 0;
    for r in 0..y.height() {
        for c in 0..y.width() {
            match y.block_at(Coord(r, c)) {
                Some(YardBlockType::Head(o, _)) | Some(YardBlockType::Body(o)) => {
                    occupied += 1;
                    let cells = y.snake_cells(o).expect("cell of a free slot");
                    assert!(cells.contains(&Coord(r, c)));
                }
                _ => {}
            }
        }
    }
    assert_eq!(owned, occupied);
    assert_eq!(count_beans(y), y.beans_left());
    assert!(y.beans_left() <= y.bean_target());
}

#[test]
fn opposite_directions() {
    assert_eq!(Direction::L.opposite(), Direction::R);
    assert_eq!(Direction::R.opposite(), Direction::L);
    assert_eq!(Direction::U.opposite(), Direction::D);
    assert_eq!(Direction::D.opposite(), Direction::U);
}

#[test]
fn next_random_never_turns_back() {
    for d in [Direction::L, Direction::R, Direction::U, Direction::D] {
        for _ in 0..50 {
            assert_ne!(d.next_random(), d.opposite());
        }
    }
}

#[test]
fn move_toward_stays_inside() {
    let bounds = Coord(20, 30);
    assert_eq!(Coord(5, 5).move_toward(Direction::L, bounds), Some(Coord(5, 4)));
    assert_eq!(Coord(5, 5).move_toward(Direction::R, bounds), Some(Coord(5, 6)));
    assert_eq!(Coord(5, 5).move_toward(Direction::U, bounds), Some(Coord(4, 5)));
    assert_eq!(Coord(5, 5).move_toward(Direction::D, bounds), Some(Coord(6, 5)));
    assert_eq!(Coord(5, 0).move_toward(Direction::L, bounds), None);
    assert_eq!(Coord(5, 29).move_toward(Direction::R, bounds), None);
    assert_eq!(Coord(0, 5).move_toward(Direction::U, bounds), None);
    assert_eq!(Coord(19, 5).move_toward(Direction::D, bounds), None);
    assert_eq!(Coord(0, 0).move_toward(Direction::R, Coord(1, 1)), None);
}

#[test]
fn rand_inside_is_inside() {
    for _ in 0..200 {
        let c = Coord(3, 7).rand_inside();
        assert!(c.0 < 3 && c.1 < 7);
    }
}

#[test]
fn new_yard_holds_target_beans() {
    let y = YardSim::new(30, 20, 5, 3);
    assert_eq!(y.beans_left(), 5);
    assert_eq!(count_beans(&y), 5);
    for id in 0..MAX_PLAYERS {
        assert!(y.snake_cells(id).is_none());
        assert_eq!(y.get_score_of(id), 0);
    }
}

#[test]
fn beans_capped_by_small_field() {
    let y = YardSim::new(2, 1, 5, 1);
    assert_eq!(y.beans_left(), 2);
    assert_eq!(count_beans(&y), 2);
    let e = YardSim::new(0, 0, 5, 1);
    assert_eq!(e.beans_left(), 0);
}

#[test]
fn refill_at_target_is_noop() {
    let mut y = YardSim::new(30, 20, 5, 3);
    let mut before = Vec::new();
    for r in 0..20 {
        for c in 0..30 {
            before.push(y.block_at(Coord(r, c)));
        }
    }
    y.fill_beans();
    y.fill_beans();
    let mut after = Vec::new();
    for r in 0..20 {
        for c in 0..30 {
            after.push(y.block_at(Coord(r, c)));
        }
    }
    assert_eq!(before, after);
    assert_eq!(y.beans_left(), 5);
}

#[test]
fn place_bean_respects_target() {
    let mut y = YardSim::with_empty_grid(4, 4, 2, 1);
    assert!(y.place_bean(Coord(0, 0)));
    assert!(!y.place_bean(Coord(0, 0)));
    assert!(!y.place_bean(Coord(9, 0)));
    assert!(y.place_bean(Coord(1, 1)));
    assert!(!y.place_bean(Coord(2, 2)));
    assert_eq!(y.beans_left(), 2);
    assert_eq!(y.block_at(Coord(2, 2)), Some(YardBlockType::Empty));
}

#[test]
fn init_snake_at_paints_segment() {
    let mut y = YardSim::with_empty_grid(10, 10, 0, 3);
    assert_eq!(y.init_snake_at(Coord(5, 2), Direction::R), Some(0));
    assert_eq!(y.snake_cells(0), Some(vec![Coord(5, 4), Coord(5, 3), Coord(5, 2)]));
    assert_eq!(y.block_at(Coord(5, 4)), Some(YardBlockType::Head(0, Direction::R)));
    assert_eq!(y.block_at(Coord(5, 3)), Some(YardBlockType::Body(0)));
    assert_eq!(y.block_at(Coord(5, 2)), Some(YardBlockType::Body(0)));
    assert_eq!(y.stall_of(0), STALL_TICKS);
    assert_eq!(y.direction_of(0), Some(Direction::R));
    // overlapping and out of bounds placements are refused
    assert_eq!(y.init_snake_at(Coord(4, 3), Direction::D), None);
    assert_eq!(y.init_snake_at(Coord(0, 0), Direction::U), None);
    assert_eq!(y.init_snake_at(Coord(0, 9), Direction::R), None);
    assert_eq!(y.init_snake_at(Coord(0, 0), Direction::D), Some(1));
    assert_occupancy(&y);
}

#[test]
fn room_full_rejects_sixth_snake() {
    let mut y = YardSim::new(30, 20, 5, 3);
    for id in 0..MAX_PLAYERS {
        assert_eq!(y.init_snake(), Some(id));
    }
    assert_eq!(y.init_snake(), None);
    assert_occupancy(&y);
}

#[test]
fn init_snake_fits_nowhere() {
    let mut y = YardSim::with_empty_grid(3, 3, 0, 4);
    assert_eq!(y.init_snake(), None);
    let mut z = YardSim::with_empty_grid(3, 1, 0, 3);
    assert_eq!(z.init_snake(), Some(0));
    let cells = z.snake_cells(0).unwrap();
    assert_eq!(cells.len(), 3);
}

#[test]
fn control_rejects_reversal() {
    let mut y = YardSim::with_empty_grid(10, 10, 0, 3);
    assert_eq!(y.init_snake_at(Coord(5, 2), Direction::R), Some(0));
    assert_eq!(y.control_snake(0, Direction::L), Some(()));
    assert_eq!(y.direction_of(0), Some(Direction::R));
    assert_eq!(y.control_snake(0, Direction::U), Some(()));
    assert_eq!(y.direction_of(0), Some(Direction::U));
    // the check is against the painted head, not the stored direction
    assert_eq!(y.control_snake(0, Direction::D), Some(()));
    assert_eq!(y.direction_of(0), Some(Direction::D));
    assert_eq!(y.control_snake(0, Direction::L), Some(()));
    assert_eq!(y.direction_of(0), Some(Direction::D));
    assert_eq!(y.control_snake(3, Direction::L), None);
}

#[test]
fn protected_snake_stays_then_moves() {
    let mut y = YardSim::with_empty_grid(10, 10, 0, 3);
    y.init_snake_at(Coord(5, 2), Direction::R);
    let start = y.snake_cells(0).unwrap();
    for k in 0..STALL_TICKS {
        y.next_tick();
        assert_eq!(y.snake_cells(0).unwrap(), start);
        assert_eq!(y.stall_of(0), STALL_TICKS - k - 1);
    }
    y.next_tick();
    assert_eq!(y.snake_cells(0), Some(vec![Coord(5, 5), Coord(5, 4), Coord(5, 3)]));
    assert_eq!(y.block_at(Coord(5, 2)), Some(YardBlockType::Empty));
}

#[test]
fn leaving_the_field_fails() {
    let mut y = YardSim::with_empty_grid(5, 5, 0, 2);
    y.init_snake_at(Coord(0, 3), Direction::R);
    for _ in 0..STALL_TICKS {
        quiet_tick(&mut y);
    }
    y.move_snakes();
    assert!(y.failed_of(0));
    let (scores, failed) = {
        y.cleanup();
        (y.get_score_of(0), y.snake_cells(0))
    };
    assert_eq!(scores, 0);
    assert!(failed.is_none());
    assert_eq!(y.block_at(Coord(0, 4)), Some(YardBlockType::Empty));
    assert_eq!(y.block_at(Coord(0, 3)), Some(YardBlockType::Empty));
}

#[test]
fn eating_grows_and_scores() {
    let mut y = YardSim::with_empty_grid(10, 3, 2, 2);
    y.init_snake_at(Coord(1, 0), Direction::R);
    assert!(y.place_bean(Coord(1, 2)));
    for _ in 0..STALL_TICKS {
        quiet_tick(&mut y);
    }
    y.move_snakes();
    assert_eq!(y.bonus_of(0), 1);
    assert_eq!(y.beans_left(), 0);
    assert_eq!(y.snake_cells(0), Some(vec![Coord(1, 2), Coord(1, 1), Coord(1, 0)]));
    y.cleanup();
    assert_eq!(y.get_score_of(0), 1);
    assert_eq!(y.bonus_of(0), 0);
}

#[test]
fn kill_steal_moves_whole_score() {
    let mut y = YardSim::with_empty_grid(20, 10, 5, 2);
    assert_eq!(y.init_snake_at(Coord(0, 0), Direction::R), Some(0));
    for c in 2..7 {
        assert!(y.place_bean(Coord(0, c)));
    }
    for _ in 0..STALL_TICKS {
        quiet_tick(&mut y);
    }
    for _ in 0..5 {
        quiet_tick(&mut y);
    }
    assert_eq!(y.get_score_of(0), 5);
    assert_eq!(y.snake_cells(0).unwrap()[0], Coord(0, 6));
    // slot 1 lies across the path, tail at (0, 8)
    assert_eq!(y.init_snake_at(Coord(0, 8), Direction::D), Some(1));
    assert_eq!(y.block_at(Coord(0, 8)), Some(YardBlockType::Body(1)));
    quiet_tick(&mut y);
    y.move_snakes();
    assert!(y.failed_of(0));
    assert!(!y.failed_of(1));
    assert_eq!(y.bonus_of(1), 5);
    y.cleanup();
    assert_eq!(y.get_score_of(1), 5);
    assert!(y.snake_cells(0).is_none());
    // a freed slot keeps its committed score
    assert_eq!(y.get_score_of(0), 5);
    assert_occupancy(&y);
}

#[test]
fn head_on_lower_slot_mover_fails() {
    let mut y = YardSim::with_empty_grid(30, 20, 5, 3);
    // slots 0, 1 and 3 run along the bottom rows, away from the meeting
    assert_eq!(y.init_snake_at(Coord(17, 0), Direction::R), Some(0));
    assert_eq!(y.init_snake_at(Coord(18, 0), Direction::R), Some(1));
    // slot 2 goes right along row 10 and eats a bean on its way
    assert_eq!(y.init_snake_at(Coord(10, 4), Direction::R), Some(2));
    assert_eq!(y.init_snake_at(Coord(19, 0), Direction::R), Some(3));
    // slot 4 goes up column 8
    assert_eq!(y.init_snake_at(Coord(13, 8), Direction::U), Some(4));
    assert!(y.place_bean(Coord(10, 7)));
    for _ in 0..STALL_TICKS {
        quiet_tick(&mut y);
    }
    quiet_tick(&mut y);
    assert_eq!(y.get_score_of(2), 1);
    assert_eq!(y.snake_cells(2).unwrap()[0], Coord(10, 7));
    assert_eq!(y.snake_cells(4).unwrap()[0], Coord(10, 8));
    y.move_snakes();
    // slot 2 ran into slot 4's head: 2 < 4, so only slot 2 fails and slot 4
    // gains its score
    assert!(y.failed_of(2));
    assert!(!y.failed_of(4));
    assert_eq!(y.bonus_of(4), 1);
    assert_eq!(y.snake_cells(4).unwrap()[0], Coord(9, 8));
    y.cleanup();
    assert!(y.snake_cells(2).is_none());
    assert_eq!(y.get_score_of(4), 1);
    assert_occupancy(&y);
}

#[test]
fn head_on_higher_slot_mover_fails_both() {
    let mut y = YardSim::with_empty_grid(30, 20, 0, 1);
    assert_eq!(y.init_snake_at(Coord(5, 5), Direction::R), Some(0));
    assert_eq!(y.init_snake_at(Coord(5, 7), Direction::L), Some(1));
    for _ in 0..STALL_TICKS {
        quiet_tick(&mut y);
    }
    // slot 0 enters (5, 6) first; slot 1 then meets its head there
    y.move_snakes();
    assert!(y.failed_of(0));
    assert!(y.failed_of(1));
    y.cleanup();
    assert!(y.snake_cells(0).is_none());
    assert!(y.snake_cells(1).is_none());
    assert_occupancy(&y);
}

#[test]
fn occupancy_holds_over_a_game() {
    let mut y = YardSim::new(30, 20, 5, 3);
    for _ in 0..MAX_PLAYERS {
        y.init_snake();
    }
    let turns = [Direction::U, Direction::L, Direction::D, Direction::R];
    for t in 0..120 {
        for id in 0..MAX_PLAYERS {
            if t % (id as usize + 3) == 0 {
                y.control_snake(id, turns[(t + id as usize) % 4]);
            }
        }
        let (scores, failed) = y.next_tick();
        assert_eq!(scores.len(), MAX_PLAYERS as usize);
        assert_eq!(failed.len(), MAX_PLAYERS as usize);
        for id in 0..MAX_PLAYERS {
            if failed[id as usize] {
                assert!(y.snake_cells(id).is_none());
            }
            assert_eq!(y.get_score_of(id), scores[id as usize]);
        }
        assert_occupancy(&y);
        if t % 10 == 0 {
            y.init_snake();
        }
    }
}

#[test]
fn protected_owner_survives_head_on() {
    let mut y = YardSim::with_empty_grid(30, 20, 0, 1);
    // slot 0 runs off the field on its first move and frees the slot
    assert_eq!(y.init_snake_at(Coord(0, 29), Direction::R), Some(0));
    assert_eq!(y.init_snake_at(Coord(10, 5), Direction::R), Some(1));
    for _ in 0..STALL_TICKS + 1 {
        quiet_tick(&mut y);
    }
    assert!(y.snake_cells(0).is_none());
    assert_eq!(y.snake_cells(1), Some(vec![Coord(10, 6)]));
    // a fresh, protected snake in slot 0 right in front of slot 1
    assert_eq!(y.init_snake_at(Coord(10, 7), Direction::L), Some(0));
    y.move_snakes();
    assert!(y.failed_of(1));
    assert!(!y.failed_of(0));
    y.cleanup();
    assert_eq!(y.snake_cells(0), Some(vec![Coord(10, 7)]));
    assert!(y.snake_cells(1).is_none());
    assert_occupancy(&y);
}
