use cli_2048::select_preset;
use cli_2048::Grid;

#[test]
fn get_size_matches_documented_formula() {
    // a 4 by 4 grid of small tiles: field width 2
    let grid = Grid::new(4, 4).unwrap();
    let x_size = 4 * 2 + (4 - 1) + 2;
    let y_size = 4 + (4 - 1) + 2;
    assert_eq!(grid.get_size(), (x_size, y_size));
}

#[test]
fn render_draws_the_documented_box() {
    let grid = Grid::from_rows(vec![vec![1, 2], vec![0, 3]]);
    let expected = "╔══╦══╗\n║ 2║ 4║\n╠══╬══╣\n║  ║ 8║\n╚══╩══╝\n";
    assert_eq!(grid.render(), expected);
}

#[test]
fn render_uses_the_selected_preset() {
    let thin = select_preset("Thin").unwrap();
    let grid = Grid::from_rows(vec![vec![1, 2], vec![0, 3]]).with_pipes(thin);
    let expected = "┌──┬──┐\n│ 2│ 4│\n├──┼──┤\n│  │ 8│\n└──┴──┘\n";
    assert_eq!(grid.render(), expected);
}

#[test]
fn render_size_matches_get_size() {
    for rows in [
        vec![vec![0u8, 1], vec![2, 3]],
        vec![vec![10, 0, 1]],
        vec![vec![1], vec![0], vec![7]],
        vec![vec![63, 0], vec![0, 0]],
    ] {
        let grid = Grid::from_rows(rows);
        let (width, lines) = grid.get_size();
        let text = grid.render();
        assert_eq!(text.lines().count(), lines);
        for line in text.lines() {
            assert_eq!(line.chars().count(), width);
        }
    }
}

#[test]
fn formatted_numbers_pads_to_the_widest_value() {
    let grid = Grid::from_rows(vec![vec![10, 1], vec![0, 5]]);
    let texts = grid.formatted_numbers();
    assert_eq!(texts[0][0], "1024");
    assert_eq!(texts[0][1], "   2");
    assert_eq!(texts[1][0], "    ");
    assert_eq!(texts[1][1], "  32");
}

#[test]
fn large_tile_values_render_in_full() {
    let grid = Grid::from_rows(vec![vec![63, 0]]);
    let text = grid.render();
    assert!(text.contains("9223372036854775808"));
}

#[test]
fn preset_lookup_knows_exactly_three_names() {
    assert!(select_preset("Thin").is_some());
    assert!(select_preset("Medium").is_some());
    assert!(select_preset("Thick").is_some());
    assert!(select_preset("Bold").is_none());
    assert!(select_preset("").is_none());
    assert!(select_preset("thin").is_none());
}

#[test]
fn preset_glyphs_differ_between_presets() {
    let grid = Grid::from_rows(vec![vec![1, 2], vec![0, 3]]);
    let thick = grid.render();
    let medium = grid.with_pipes(select_preset("Medium").unwrap()).render();
    assert_ne!(thick, medium);
    assert_eq!(thick.lines().count(), medium.lines().count());
}
