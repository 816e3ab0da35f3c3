use minesweeper::board::{move_cursor, Action, Cell, Position, Size, Visibility};
use minesweeper::field::Field;
use minesweeper::render::string_repeat;

fn all_positions(size: Size) -> Vec<Position> {
    let mut out = Vec::new();
    for x in 0..size.size_x {
        for y in 0..size.size_y {
            out.push(Position { x, y });
        }
    }
    out
}

fn mine_positions(field: &Field) -> Vec<Position> {
    all_positions(field.size())
        .into_iter()
        .filter(|p| field.cell_at(*p) == Some(Cell::Mine))
        .collect()
}

fn neighbour_mines(field: &Field, p: Position) -> u8 {
    let mut n = 0;
    for dx in -1..=1 {
        for dy in -1..=1 {
            if dx == 0 && dy == 0 {
                continue;
            }
            if field.cell_at(Position { x: p.x + dx, y: p.y + dy }) == Some(Cell::Mine) {
                n += 1;
            }
        }
    }
    n
}

#[test]
fn same_seed_gives_same_grid() {
    let size = Size { size_x: 9, size_y: 7 };
    let a = Field::new(size, 12, 42);
    let b = Field::new(size, 12, 42);
    for p in all_positions(size) {
        assert_eq!(a.cell_at(p), b.cell_at(p));
    }
}

#[test]
fn mine_count_equals_request() {
    let f = Field::new(Size { size_x: 10, size_y: 10 }, 10, 7);
    assert_eq!(mine_positions(&f).len(), 10);
    assert_eq!(f.mines(), 10);
}

#[test]
fn mine_count_is_clamped() {
    let full = Field::new(Size { size_x: 3, size_y: 3 }, 100, 3);
    assert_eq!(full.mines(), 8);
    assert_eq!(mine_positions(&full).len(), 8);
    let none = Field::new(Size { size_x: 3, size_y: 3 }, -4, 3);
    assert_eq!(none.mines(), 0);
    assert_eq!(mine_positions(&none).len(), 0);
    let empty = Field::new(Size { size_x: 0, size_y: 5 }, 3, 3);
    assert_eq!(empty.mines(), 0);
}

#[test]
fn entropy_seed_places_all_mines() {
    let f = Field::new(Size { size_x: 6, size_y: 4 }, 5, 0);
    assert_eq!(mine_positions(&f).len(), 5);
}

#[test]
fn adjacency_counts_are_exact() {
    for seed in 1..20u64 {
        let f = Field::new(Size { size_x: 6, size_y: 9 }, 15, seed);
        for p in all_positions(f.size()) {
            match f.cell_at(p).unwrap() {
                Cell::Mine => {}
                Cell::Nothing => assert_eq!(neighbour_mines(&f, p), 0),
                Cell::Number(n) => {
                    assert!(n >= 1 && n <= 8);
                    assert_eq!(neighbour_mines(&f, p), n);
                }
            }
        }
    }
}

#[test]
fn index_uses_column_count_as_stride() {
    let f = Field::new(Size { size_x: 2, size_y: 3 }, 0, 1);
    assert_eq!(f.pos_to_index(Position { x: 0, y: 0 }), 0);
    assert_eq!(f.pos_to_index(Position { x: 0, y: 2 }), 2);
    assert_eq!(f.pos_to_index(Position { x: 1, y: 0 }), 3);
    assert_eq!(f.pos_to_index(Position { x: 1, y: 2 }), 5);
}

#[test]
fn out_of_bounds_checks() {
    let f = Field::new(Size { size_x: 2, size_y: 3 }, 0, 1);
    assert!(!f.is_out_of_bounds(Position { x: 1, y: 2 }));
    assert!(f.is_out_of_bounds(Position { x: 2, y: 0 }));
    assert!(f.is_out_of_bounds(Position { x: 0, y: 3 }));
    assert!(f.is_out_of_bounds(Position { x: -1, y: 0 }));
    assert!(f.is_out_of_bounds(Position { x: 0, y: -1 }));
}

#[test]
fn reveal_on_empty_board_opens_everything_once() {
    let mut f = Field::new(Size { size_x: 4, size_y: 5 }, 0, 9);
    let mut searched = vec![99, 98];
    let lost = f.reveal_on_pos(Position { x: 2, y: 3 }, &mut searched);
    assert!(!lost);
    assert_eq!(searched.len(), 22);
    assert_eq!(&searched[..2], &[99, 98]);
    let mut sorted = searched[2..].to_vec();
    sorted.sort();
    assert_eq!(sorted, (0..20).collect::<Vec<usize>>());
    for p in all_positions(f.size()) {
        assert_eq!(f.visibility_at(p), Some(Visibility::Revealed));
    }
}

#[test]
fn flood_fill_stops_at_numbers_and_opens_no_mine() {
    for seed in 1..30u64 {
        let mut f = Field::new(Size { size_x: 8, size_y: 8 }, 8, seed);
        let start = all_positions(f.size())
            .into_iter()
            .find(|p| f.cell_at(*p) == Some(Cell::Nothing));
        let start = match start {
            Some(p) => p,
            None => continue,
        };
        let mut searched = Vec::new();
        assert!(!f.reveal_on_pos(start, &mut searched));
        let mut opened = 0;
        for p in all_positions(f.size()) {
            let shown = f.visibility_at(p).unwrap();
            if shown == Visibility::Revealed {
                opened += 1;
                assert_ne!(f.cell_at(p), Some(Cell::Mine));
                if f.cell_at(p) == Some(Cell::Nothing) {
                    for dx in -1..=1 {
                        for dy in -1..=1 {
                            let q = Position { x: p.x + dx, y: p.y + dy };
                            if let Some(v) = f.visibility_at(q) {
                                assert_eq!(v, Visibility::Revealed);
                            }
                        }
                    }
                }
            }
        }
        assert_eq!(opened, searched.len());
        let mut sorted = searched.clone();
        sorted.sort();
        sorted.dedup();
        assert_eq!(sorted.len(), searched.len());
    }
}

#[test]
fn revealing_a_number_opens_it_alone() {
    let mut f = Field::new(Size { size_x: 7, size_y: 7 }, 6, 11);
    let p = all_positions(f.size())
        .into_iter()
        .find(|p| matches!(f.cell_at(*p), Some(Cell::Number(_))))
        .unwrap();
    let mut searched = Vec::new();
    assert!(!f.reveal_on_pos(p, &mut searched));
    assert_eq!(searched, vec![f.pos_to_index(p)]);
    for q in all_positions(f.size()) {
        let expected = if q == p { Visibility::Revealed } else { Visibility::Hidden };
        assert_eq!(f.visibility_at(q), Some(expected));
    }
}

#[test]
fn revealing_a_mine_loses_and_opens_it_alone() {
    let mut f = Field::new(Size { size_x: 5, size_y: 6 }, 4, 5);
    let mine = mine_positions(&f)[0];
    let mut searched = Vec::new();
    assert!(f.reveal_on_pos(mine, &mut searched));
    assert_eq!(searched.len(), 1);
    for q in all_positions(f.size()) {
        let expected = if q == mine { Visibility::Revealed } else { Visibility::Hidden };
        assert_eq!(f.visibility_at(q), Some(expected));
    }
}

#[test]
fn reveal_off_the_board_changes_nothing() {
    let mut f = Field::new(Size { size_x: 3, size_y: 3 }, 1, 5);
    let mut searched = vec![4];
    assert!(!f.reveal_on_pos(Position { x: 3, y: 0 }, &mut searched));
    assert_eq!(searched, vec![4]);
    for q in all_positions(f.size()) {
        assert_eq!(f.visibility_at(q), Some(Visibility::Hidden));
    }
}

#[test]
fn win_needs_flags_exactly_on_mines() {
    let mut f = Field::new(Size { size_x: 3, size_y: 3 }, 1, 21);
    let mine = mine_positions(&f)[0];
    let other = all_positions(f.size()).into_iter().find(|p| *p != mine).unwrap();
    assert!(!f.player_won());
    f.toggle_mark(mine);
    assert!(f.player_won());
    f.toggle_mark(mine);
    f.toggle_mark(other);
    assert_eq!(f.count_marked(), 1);
    assert!(!f.player_won());
    f.toggle_mark(mine);
    assert!(!f.player_won());
}

#[test]
fn toggling_twice_restores_hidden() {
    let mut f = Field::new(Size { size_x: 4, size_y: 4 }, 3, 2);
    let p = Position { x: 1, y: 2 };
    f.toggle_mark(p);
    assert_eq!(f.visibility_at(p), Some(Visibility::Flagged));
    assert_eq!(f.count_marked(), 1);
    f.toggle_mark(p);
    assert_eq!(f.visibility_at(p), Some(Visibility::Hidden));
    assert_eq!(f.count_marked(), 0);
}

#[test]
fn revealed_cell_cannot_be_marked() {
    let mut f = Field::new(Size { size_x: 3, size_y: 3 }, 0, 2);
    let mut searched = Vec::new();
    f.reveal_on_pos(Position { x: 0, y: 0 }, &mut searched);
    f.toggle_mark(Position { x: 1, y: 1 });
    assert_eq!(f.visibility_at(Position { x: 1, y: 1 }), Some(Visibility::Revealed));
    assert_eq!(f.count_marked(), 0);
}

#[test]
fn fresh_board_draws_hidden_tokens() {
    let f = Field::new(Size { size_x: 2, size_y: 3 }, 1, 8);
    assert_eq!(
        f.draw(Position { x: 0, y: 1 }),
        "=========\n| -[-]- |\n| - - - |\n========="
    );
    assert_eq!(
        f.draw(Position { x: 5, y: 5 }),
        "=========\n| - - - |\n| - - - |\n========="
    );
}

#[test]
fn revealed_empty_board_draws_blanks() {
    let mut f = Field::new(Size { size_x: 2, size_y: 3 }, 0, 8);
    let mut searched = Vec::new();
    f.reveal_on_pos(Position { x: 0, y: 0 }, &mut searched);
    assert_eq!(
        f.draw(Position { x: -1, y: -1 }),
        "=========\n|       |\n|       |\n========="
    );
    assert_eq!(
        f.draw(Position { x: 1, y: 2 }),
        "=========\n|       |\n|    [ ]|\n========="
    );
}

#[test]
fn revealed_cells_draw_counts_flags_and_mines() {
    let mut f = Field::new(Size { size_x: 1, size_y: 3 }, 2, 1);
    // On one row of three with two mines, the free cell shows 1 or 2.
    let free = all_positions(f.size())
        .into_iter()
        .find(|p| f.cell_at(*p) != Some(Cell::Mine))
        .unwrap();
    let expected = neighbour_mines(&f, free);
    let mines = mine_positions(&f);
    let mut searched = Vec::new();
    f.reveal_on_pos(free, &mut searched);
    f.toggle_mark(mines[0]);
    f.reveal_on_pos(mines[1], &mut searched);
    let mut row = String::from("|");
    for y in 0..3 {
        row.push(' ');
        let p = Position { x: 0, y };
        if p == free {
            row.push_str(&expected.to_string());
        } else if p == mines[0] {
            row.push('*');
        } else {
            row.push('M');
        }
    }
    row.push_str(" |\n");
    let expected_text = format!("=========\n{}=========", row);
    assert_eq!(f.draw(Position { x: 9, y: 9 }), expected_text);
}

#[test]
fn zero_column_board_draws_bare_rows() {
    let f = Field::new(Size { size_x: 2, size_y: 0 }, 0, 1);
    assert_eq!(f.draw(Position { x: 0, y: 0 }), "===\n||\n||\n===");
}

#[test]
fn status_line_reports_flags_mines_and_seconds() {
    let mut f = Field::new(Size { size_x: 4, size_y: 4 }, 12, 3);
    f.toggle_mark(Position { x: 0, y: 0 });
    assert_eq!(f.status_bar_at(125), "1/12 125");
    assert_eq!(f.status_bar_at(0), "1/12 0");
    let text = f.status_bar();
    assert!(text.starts_with("1/12 "));
}

#[test]
fn repeat_writes_copies() {
    assert_eq!(string_repeat("ab", 3), "ababab");
    assert_eq!(string_repeat("ab", 0), "");
    assert_eq!(string_repeat("ab", -2), "");
}

#[test]
fn revealing_again_changes_nothing() {
    let mut f = Field::new(Size { size_x: 8, size_y: 8 }, 6, 4);
    let start = all_positions(f.size())
        .into_iter()
        .find(|p| f.cell_at(*p) != Some(Cell::Mine))
        .unwrap();
    let mut searched = Vec::new();
    assert!(!f.reveal_on_pos(start, &mut searched));
    let first: Vec<Option<Visibility>> =
        all_positions(f.size()).into_iter().map(|p| f.visibility_at(p)).collect();
    assert!(!f.reveal_on_pos(start, &mut searched));
    let second: Vec<Option<Visibility>> =
        all_positions(f.size()).into_iter().map(|p| f.visibility_at(p)).collect();
    assert_eq!(first, second);
}

#[test]
fn cursor_moves_and_stays_on_the_board() {
    let size = Size { size_x: 3, size_y: 4 };
    let corner = Position { x: 0, y: 0 };
    assert_eq!(move_cursor(size, corner, Action::Up), corner);
    assert_eq!(move_cursor(size, corner, Action::Left), corner);
    assert_eq!(move_cursor(size, corner, Action::Down), Position { x: 1, y: 0 });
    assert_eq!(move_cursor(size, corner, Action::Right), Position { x: 0, y: 1 });
    let far = Position { x: 2, y: 3 };
    assert_eq!(move_cursor(size, far, Action::Down), far);
    assert_eq!(move_cursor(size, far, Action::Right), far);
    assert_eq!(move_cursor(size, far, Action::Mark), far);
    assert_eq!(move_cursor(size, far, Action::Reveal), far);
}

#[test]
fn listed_cells_are_not_entered() {
    let mut f = Field::new(Size { size_x: 1, size_y: 5 }, 0, 6);
    let mut searched = vec![2];
    assert!(!f.reveal_on_pos(Position { x: 0, y: 0 }, &mut searched));
    assert_eq!(searched[0], 2);
    let mut added = searched[1..].to_vec();
    added.sort();
    assert_eq!(added, vec![0, 1]);
    let expected = [
        Visibility::Revealed,
        Visibility::Revealed,
        Visibility::Hidden,
        Visibility::Hidden,
        Visibility::Hidden,
    ];
    for y in 0..5 {
        assert_eq!(f.visibility_at(Position { x: 0, y }), Some(expected[y as usize]));
    }
}

#[test]
fn listed_start_is_revealed_but_not_appended() {
    let mut f = Field::new(Size { size_x: 2, size_y: 2 }, 0, 6);
    let mut searched = vec![0];
    assert!(!f.reveal_on_pos(Position { x: 0, y: 0 }, &mut searched));
    assert_eq!(searched[0], 0);
    let mut added = searched[1..].to_vec();
    added.sort();
    assert_eq!(added, vec![1, 2, 3]);
    for p in all_positions(f.size()) {
        assert_eq!(f.visibility_at(p), Some(Visibility::Revealed));
    }
}
