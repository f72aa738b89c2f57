use picross::action::PicrossAction;
use picross::board::Board;
use picross::board::Tile;
use picross::gfx::Font;
use picross::gfx::text_pixel_width;
use picross::gui::GuiMode;
use picross::gui::GuiState;
use picross::gui::Key;
use picross::gui::calc_rule_height;
use picross::gui::calc_rule_width;
use picross::gui::convert_mouse_coord_to_tile_coord;
use picross::gfx::Res;
use picross::gfx::sprite_rect;
use picross::gui::Widget;
use picross::gui::WidgetType;
use picross::gui::find_widget;
use picross::gui::is_picross_label_visible;
use picross::gui::make_widgets;
use picross::gui::pick_font;

#[test]
fn text_width_counts_digits() {
    // One glyph is seven pixels; each further digit adds six.
    assert_eq!(text_pixel_width(5, 1), 7);
    assert_eq!(text_pixel_width(10, 1), 13);
    assert_eq!(text_pixel_width(100, 1), 19);
    assert_eq!(text_pixel_width(10, 2), 26);
}

#[test]
fn rule_width_sums_digits_and_gaps() {
    assert_eq!(calc_rule_width(&vec![]), 0);
    assert_eq!(calc_rule_width(&vec![1]), 7);
    assert_eq!(calc_rule_width(&vec![1, 1]), 19);
    assert_eq!(calc_rule_width(&vec![10, 2]), 25);
}

#[test]
fn rule_height_stacks_digits_and_gaps() {
    assert_eq!(calc_rule_height(&vec![]), 0);
    assert_eq!(calc_rule_height(&vec![4]), 7);
    assert_eq!(calc_rule_height(&vec![4, 1]), 16);
}

#[test]
fn screen_scale_clamps_to_one() {
    let (w, h, scale) = GuiState::calc_screen_size_and_scale(100, 100);
    assert_eq!((w, h), (100, 100));
    assert_eq!(scale, 1);
    let (_, _, scale) = GuiState::calc_screen_size_and_scale(640, 400);
    assert_eq!(scale, 2);
}

#[test]
fn fresh_state_defaults() {
    let s = GuiState::new(640, 400);
    assert_eq!(s.mode, GuiMode::Neutral);
    assert_eq!(s.selected_paint, Tile::Filled);
    assert!(s.board.is_none());
    assert_eq!(s.board_scale, 1);
    assert!(s.highlight.is_none());
}

#[test]
fn keys_choose_actions_and_paints() {
    let mut s = GuiState::new(640, 400);
    assert!(matches!(s.on_key_down(Key::Z), PicrossAction::Undo));
    assert!(matches!(s.on_key_down(Key::X), PicrossAction::Redo));
    assert!(matches!(s.on_key_down(Key::A), PicrossAction::AutoFill));
    assert!(matches!(s.on_key_down(Key::Num2), PicrossAction::NoOp));
    assert_eq!(s.selected_paint, Tile::CrossedOut);
    assert!(matches!(s.on_key_down(Key::Other), PicrossAction::NoOp));
}

#[test]
fn wheel_zoom_stays_in_range() {
    let mut s = GuiState::new(640, 400);
    s.on_wheel(3);
    assert_eq!(s.board_scale, 4);
    s.on_wheel(10);
    assert_eq!(s.board_scale, 5);
    s.on_wheel(-100);
    assert_eq!(s.board_scale, 1);
}

#[test]
fn mouse_coord_maps_to_tiles() {
    let b = Board::new(3, 3);
    // At scale 1 a tile cell is 17 pixels across.
    assert_eq!(convert_mouse_coord_to_tile_coord(&b, 1, 0, 0), Some((0, 0)));
    assert_eq!(convert_mouse_coord_to_tile_coord(&b, 1, 20, 40), Some((1, 2)));
    assert_eq!(convert_mouse_coord_to_tile_coord(&b, 1, 60, 0), None);
    assert_eq!(convert_mouse_coord_to_tile_coord(&b, 1, -1, 5), None);
}

#[test]
fn middle_drag_pans_the_view() {
    let mut s = GuiState::new(640, 400);
    let b = Board::new(2, 2);
    s.on_mmb(10, 10);
    assert_eq!(s.mode, GuiMode::Pan);
    s.on_mouse_motion(&b, 25, 4);
    assert_eq!(s.offset_x, 15);
    assert_eq!(s.offset_y, -6);
    s.on_mmb_up();
    assert_eq!(s.mode, GuiMode::Neutral);
}

#[test]
fn right_drag_rubs_out_and_hands_back_the_board() {
    let mut s = GuiState::new(640, 400);
    let mut b = Board::new(2, 2);
    b.set(0, 0, Tile::Filled);
    // Press over the filled cell: the editing copy gets it rubbed out.
    let r = s.on_rmb(&b, 5, 5);
    assert!(matches!(r, PicrossAction::NoOp));
    assert_eq!(s.mode, GuiMode::HoldRMB);
    let r = s.on_rmb_up();
    match r {
        PicrossAction::Update(edited) => {
            assert_eq!(edited.get(0, 0), Some(Tile::Empty));
            assert_eq!(edited.get(1, 1), Some(Tile::Empty));
        },
        _ => panic!("the edit must be handed back"),
    }
    assert_eq!(s.mode, GuiMode::Neutral);
    assert!(s.board.is_none());
}

#[test]
fn sprite_table_spots() {
    assert_eq!(sprite_rect(Res::ToolbarPicross), (0, 0, 53, 9));
    assert_eq!(sprite_rect(Res::TileFilled), (40, 10, 15, 15));
    assert_eq!(sprite_rect(Res::FontSolved(0)), (0, 50, 7, 7));
    assert_eq!(sprite_rect(Res::FontConflict(9)), (72, 70, 7, 7));
}

#[test]
fn toolbar_widgets_at_default_size() {
    let ss = GuiState::calc_screen_size_and_scale(640, 400);
    assert!(is_picross_label_visible(ss));
    let ws = make_widgets(ss);
    assert_eq!(ws.len(), 6);
    assert!(matches!(ws[0].mode, WidgetType::Label));
    assert!(matches!(ws[1].mode, WidgetType::Undo));
    assert!(matches!(ws[2].mode, WidgetType::Redo));
    assert!(matches!(ws[3].mode, WidgetType::Paint(Tile::Empty, _, _)));
    assert!(matches!(ws[5].mode, WidgetType::Paint(Tile::Filled, _, _)));
    // scale 2: the toolbar row starts 24 pixels above the window's bottom.
    assert_eq!(ws[0].rect.y, 400 - 24);
    assert_eq!(ws[1].rect.x, 2 * 59);
    assert_eq!(ws[2].rect.x, 2 * 69);
}

#[test]
fn narrow_window_hides_the_label() {
    let ss = GuiState::calc_screen_size_and_scale(100, 100);
    assert!(!is_picross_label_visible(ss));
    let ws = make_widgets(ss);
    assert_eq!(ws.len(), 5);
    assert!(matches!(ws[0].mode, WidgetType::Undo));
}

#[test]
fn widgets_are_found_by_position() {
    let ss = GuiState::calc_screen_size_and_scale(640, 400);
    let ws = make_widgets(ss);
    let undo = &ws[1];
    let hit = find_widget(&ws, undo.rect.x + 1, undo.rect.y + 1).expect("inside the button");
    assert!(matches!(hit.mode, WidgetType::Undo));
    assert!(find_widget(&ws, 0, 0).is_none());
}

#[test]
fn left_click_on_widget_acts() {
    let mut s = GuiState::new(640, 400);
    let b = Board::new(2, 2);
    let ws = make_widgets(s.screen_size);
    let paint_pot: Vec<&Widget> = ws
        .iter()
        .filter(|w| matches!(w.mode, WidgetType::Paint(Tile::CrossedOut, _, _)))
        .collect();
    let r = s.on_lmb(&b, Some(paint_pot[0]), 0, 0);
    assert!(matches!(r, PicrossAction::NoOp));
    assert_eq!(s.selected_paint, Tile::CrossedOut);
    assert_eq!(s.mode, GuiMode::Neutral);

    let r = s.on_lmb(&b, Some(&ws[1]), 0, 0);
    assert!(matches!(r, PicrossAction::Undo));
}

#[test]
fn left_drag_paints_and_hands_back_the_board() {
    let mut s = GuiState::new(640, 400);
    let b = Board::new(2, 2);
    let r = s.on_lmb(&b, None, 5, 5);
    assert!(matches!(r, PicrossAction::NoOp));
    assert_eq!(s.mode, GuiMode::HoldLMB);
    // The press painted the cell under the pointer with the default paint.
    match s.on_lmb_up() {
        PicrossAction::Update(edited) => {
            assert_eq!(edited.get(0, 0), Some(Tile::Filled));
            assert_eq!(edited.get(1, 0), Some(Tile::Empty));
        },
        _ => panic!("the edit must be handed back"),
    }
}

#[test]
fn fonts_follow_confirmed_segments() {
    // The clue is [2, 1]; from the head a run of two is confirmed.
    let head = vec![2u32];
    let tail: Vec<u32> = vec![];
    assert_eq!(pick_font(2, 2, &head, 0, &tail, 1), Font::Solved);
    assert_eq!(pick_font(1, 2, &head, 1, &tail, 0), Font::Unsolved);
    // A confirmed run that does not match its digit is a contradiction.
    assert_eq!(pick_font(3, 2, &head, 0, &tail, 1), Font::Conflict);
    // More confirmed runs than the clue has digits is one as well.
    let head3 = vec![1u32, 1, 1];
    assert_eq!(pick_font(1, 2, &head3, 0, &tail, 1), Font::Conflict);
}
