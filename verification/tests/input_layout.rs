use flood_it::input::{
    get_selected_color, BUTTON_HEIGHT, BUTTON_WIDTH, INFO_X, MARGIN_X,
};

#[test]
fn first_button_hit_and_miss() {
    let bx = INFO_X + MARGIN_X;
    assert_eq!(get_selected_color(bx, 300), 0);
    assert_eq!(get_selected_color(bx + BUTTON_WIDTH - 1, 300 + BUTTON_HEIGHT - 1), 0);
    assert_eq!(get_selected_color(bx - 1, 300), -1);
    assert_eq!(get_selected_color(bx, 299), -1);
}

#[test]
fn second_column_and_lower_rows() {
    let bx0 = INFO_X + MARGIN_X;
    let bx1 = bx0 + BUTTON_WIDTH + MARGIN_X;
    assert_eq!(get_selected_color(bx1, 300), 1);
    assert_eq!(get_selected_color(bx0, 380), 2);
    assert_eq!(get_selected_color(bx1, 380), 3);
    assert_eq!(get_selected_color(bx0, 460), 4);
    assert_eq!(get_selected_color(bx1, 460), 5);
}

#[test]
fn gaps_between_buttons_select_nothing() {
    let bx0 = INFO_X + MARGIN_X;
    assert_eq!(get_selected_color(bx0 + BUTTON_WIDTH, 300), -1);
    assert_eq!(get_selected_color(bx0, 300 + BUTTON_HEIGHT), -1);
    assert_eq!(get_selected_color(0, 0), -1);
    assert_eq!(get_selected_color(-5, -5), -1);
}
