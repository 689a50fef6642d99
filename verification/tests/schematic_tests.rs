use puzzles::schematic::Cell;
use puzzles::schematic::Grid;
use puzzles::schematic::Window;

fn grid_of(lines: &[&str]) -> Grid {
    let width = lines[0].len() as i32;
    let height = lines.len() as i32;
    let mut cells = Vec::new();
    for line in lines {
        assert_eq!(line.len() as i32, width);
        for c in line.chars() {
            cells.push(match c {
                '.' => Cell::Empty,
                c => {
                    if let Some(d) = c.to_digit(10) {
                        Cell::Digit(d as u8)
                    } else {
                        Cell::Symbol(c)
                    }
                }
            });
        }
    }
    Grid { cells, width, height }
}

fn sample() -> Grid {
    grid_of(&[
        "467..114..",
        "...*......",
        "..35..633.",
        "......#...",
        "617*......",
        ".....+.58.",
        "..592.....",
        "......755.",
        "...$.*....",
        ".664.598..",
    ])
}

#[test]
fn get_is_bounds_checked() {
    let g = sample();
    assert_eq!(g.get(0, 0), Some(Cell::Digit(4)));
    assert_eq!(g.get(3, 1), Some(Cell::Symbol('*')));
    assert_eq!(g.get(-1, 0), None);
    assert_eq!(g.get(0, 10), None);
    assert_eq!(g.get(10, 0), None);
}

#[test]
fn window_neighbourhood_is_one_cell_around() {
    let w = Window { x: 2, y: 3, width: 2 };
    // same row: only the two cells directly beside it
    assert!(w.is_neighbour(1, 3));
    assert!(w.is_neighbour(4, 3));
    assert!(!w.is_neighbour(2, 3));
    assert!(!w.is_neighbour(5, 3));
    // rows above and below: the full span, corners included
    assert!(w.is_neighbour(1, 2));
    assert!(w.is_neighbour(4, 2));
    assert!(w.is_neighbour(3, 4));
    assert!(!w.is_neighbour(0, 2));
    assert!(!w.is_neighbour(5, 4));
    assert!(!w.is_neighbour(2, 5));
}

#[test]
fn neighbours_finds_touching_symbols() {
    let g = sample();
    // the run "467" at (0, 0) touches the * at (3, 1)
    let w = Window { x: 0, y: 0, width: 3 };
    assert_eq!(g.neighbours(&w), vec![(3, 1)]);
    // the run "114" at (5, 0) touches nothing
    let w = Window { x: 5, y: 0, width: 3 };
    assert_eq!(g.neighbours(&w), Vec::new());
}

#[test]
fn numbers_lists_runs_in_scan_order() {
    let g = grid_of(&["467..114..", "...*......"]);
    let ns = g.numbers();
    assert_eq!(ns.len(), 2);
    assert_eq!(ns[0], (467, Window { x: 0, y: 0, width: 3 }));
    assert_eq!(ns[1], (114, Window { x: 5, y: 0, width: 3 }));
}

#[test]
fn symbols_lists_symbol_cells_in_scan_order() {
    let g = grid_of(&["..*.", ".#.4"]);
    assert_eq!(g.symbols(), vec![('*', (2, 0)), ('#', (1, 1))]);
}

#[test]
fn first_star_sums_part_numbers_touching_symbols() {
    // the classic sample: every number but 114 and 58 counts
    assert_eq!(puzzles::schematic::first_star(&sample()), 4361);
}

#[test]
fn second_star_sums_gear_ratios() {
    // the classic sample: gears 467*35 and 755*598
    assert_eq!(puzzles::schematic::second_star(&sample()), 467835);
}

#[test]
fn lone_star_with_one_number_is_no_gear() {
    let g = grid_of(&["12*.", "...."]);
    assert_eq!(puzzles::schematic::first_star(&g), 12);
    assert_eq!(puzzles::schematic::second_star(&g), 0);
}
