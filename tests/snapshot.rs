use socket_snake::render::{height, width, Color, BEAN, EMPTY, HEAD_R};
use socket_snake::yard::{player_color, Coord, Direction, YardSim};

#[test]
fn snapshot_draws_each_cell() {
    let mut y = YardSim::with_empty_grid(6, 4, 1, 2);
    assert!(y.place_bean(Coord(3, 5)));
    assert_eq!(y.init_snake_at(Coord(1, 1), Direction::R), Some(0));
    let buf = y.generate_buf();
    assert_eq!(height(&buf), 4);
    assert_eq!(width(&buf), 6);
    let head = &buf[1][2];
    assert_eq!(head.content, HEAD_R);
    assert_eq!(head.fg, Color::White);
    // protection is 10 ticks, an even count: the slot's own colour shows
    assert_eq!(head.bg, player_color(0));
    let body = &buf[1][1];
    assert_eq!(body.content, EMPTY);
    assert_eq!(body.bg, Color::DarkGrey);
    let bean = &buf[3][5];
    assert_eq!(bean.content, BEAN);
    assert_eq!((bean.fg, bean.bg), (Color::Yellow, Color::Green));
    let empty = &buf[0][0];
    assert_eq!((empty.fg, empty.bg), (Color::White, Color::White));
    assert_eq!(empty.content, "  ");
    // an odd count of protection left blinks white
    y.next_tick();
    let buf = y.generate_buf();
    assert_eq!(buf[1][2].bg, Color::White);
}

#[test]
fn slot_colours() {
    assert_eq!(player_color(0), Color::DarkGrey);
    assert_eq!(player_color(1), Color::DarkRed);
    assert_eq!(player_color(2), Color::DarkBlue);
    assert_eq!(player_color(3), Color::DarkMagenta);
    assert_eq!(player_color(4), Color::DarkCyan);
}
