use oil_dig::game_info::Action;
use oil_dig::player::{get_action, takes_direction};

#[test]
fn action_codes() {
    assert_eq!(get_action(1, 2), Action::Move(2));
    assert_eq!(get_action(2, 0), Action::PickBom);
    assert_eq!(get_action(3, 0), Action::DropBom);
    assert_eq!(get_action(0, 0), Action::Move(4));
    assert_eq!(get_action(9, 1), Action::Move(4));
}

#[test]
fn only_code_one_reads_a_direction() {
    assert!(takes_direction(1));
    assert!(!takes_direction(2));
    assert!(!takes_direction(3));
    assert!(!takes_direction(0));
}
