use console_core::display::{Display, DISP_WIDTH};
use console_core::game::Game;
use console_core::render::{BOARD_LEFT, BOARD_TOP, DRAWN_SIZE, TILE_SIZE};

fn pixel(d: &Display, x: usize, y: usize) -> u32 {
    d.word(x + y * DISP_WIDTH)
}

#[test]
fn color_table_saturates_past_its_last_entry() {
    assert_eq!(Game::color_for(0), 0x111);
    assert_eq!(Game::color_for(1), 0xEEE);
    assert_eq!(Game::color_for(2), 0xDD0);
    assert_eq!(Game::color_for(8), 0xF30);
    assert_eq!(Game::color_for(9), 0xF00);
    assert_eq!(Game::color_for(200), 0xF00);
}

#[test]
fn draw_rect_paints_inside_and_spares_outside() {
    let mut d = Display::new();
    d.fill(5);
    Game::draw_rect(&mut d, 10, 20, 3, 0xABC);
    assert_eq!(pixel(&d, 10, 20), 0xABC);
    assert_eq!(pixel(&d, 12, 22), 0xABC);
    assert_eq!(pixel(&d, 13, 20), 5);
    assert_eq!(pixel(&d, 10, 23), 5);
    assert_eq!(pixel(&d, 9, 20), 5);
}

#[test]
fn render_of_an_empty_board_draws_empty_tiles_on_black() {
    let game = Game::new();
    let mut d = Display::new();
    d.fill(0xFFF);
    game.render(&mut d);
    // Outside the board the cleared background shows.
    assert_eq!(pixel(&d, 0, 0), 0x000);
    assert_eq!(pixel(&d, BOARD_LEFT - 1, BOARD_TOP), 0x000);
    // Tile squares take the empty-cell colour.
    assert_eq!(pixel(&d, BOARD_LEFT, BOARD_TOP), 0x111);
    assert_eq!(pixel(&d, BOARD_LEFT + DRAWN_SIZE - 1, BOARD_TOP), 0x111);
    // The two-pixel margin between tiles stays background.
    assert_eq!(pixel(&d, BOARD_LEFT + DRAWN_SIZE, BOARD_TOP), 0x000);
    assert_eq!(pixel(&d, BOARD_LEFT + DRAWN_SIZE + 1, BOARD_TOP), 0x000);
    // The next tile starts one stride in.
    assert_eq!(pixel(&d, BOARD_LEFT + TILE_SIZE, BOARD_TOP), 0x111);
}

#[test]
fn render_colours_occupied_cells_by_their_exponent() {
    let mut game = Game::new();
    game.reset();
    let mut d = Display::new();
    game.render(&mut d);
    for r in 0..4 {
        for c in 0..4 {
            let x = BOARD_LEFT + c * TILE_SIZE + DRAWN_SIZE / 2;
            let y = BOARD_TOP + r * TILE_SIZE + DRAWN_SIZE / 2;
            assert_eq!(pixel(&d, x, y), Game::color_for(game.cell(r, c)));
        }
    }
}
