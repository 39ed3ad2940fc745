use socket_snake::menu::{idea_of, UsersIdea};

#[test]
fn menu_numbers_map_to_ideas() {
    assert_eq!(idea_of(1, String::new()), Some(UsersIdea::Singleplayer));
    assert_eq!(
        idea_of(2, "127.0.0.1:14514".to_string()),
        Some(UsersIdea::JoinGame("127.0.0.1:14514".to_string()))
    );
    assert_eq!(idea_of(3, String::new()), Some(UsersIdea::HostGame));
    assert_eq!(idea_of(4, String::new()), Some(UsersIdea::ChangeName));
    assert_eq!(idea_of(5, String::new()), Some(UsersIdea::ExitGame));
    assert_eq!(idea_of(0, String::new()), None);
    assert_eq!(idea_of(6, String::new()), None);
}
