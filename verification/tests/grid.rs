use crossword::dictionary::Dictionary;
use crossword::grid::{Fill, Grid, Square};

fn dictionary(words: &[&str]) -> Dictionary {
    let mut d = Dictionary::new();
    for w in words {
        d.add(w).unwrap();
    }
    d
}

fn coordinates(g: &Grid) -> Vec<(usize, usize)> {
    let mut c: Vec<(usize, usize)> = g.squares().iter().map(|e| e.0).collect();
    c.sort();
    c
}

#[test]
fn rectangle_has_every_square_once() {
    let g = Grid::new_rectangle(3, 2);
    assert_eq!(
        coordinates(&g),
        vec![(1, 1), (1, 2), (2, 1), (2, 2), (3, 1), (3, 2)]
    );
    assert!(g.squares().iter().all(|e| e.1 == Square::Empty));
    assert_eq!(Grid::new_rectangle(0, 5).squares().len(), 0);
}

#[test]
fn circle_is_the_ring_between_the_radii() {
    let g = Grid::new_circle(2, 0);
    // The centre is (3, 3); a square is open when 0 < dx*dx + dy*dy < 6.
    let mut expected = Vec::new();
    for x in 1..=6i64 {
        for y in 1..=6i64 {
            let r = (x - 3) * (x - 3) + (y - 3) * (y - 3);
            if r > 0 && r < 6 {
                expected.push((x as usize, y as usize));
            }
        }
    }
    expected.sort();
    assert_eq!(coordinates(&g), expected);
    assert_eq!(g.get(3, 3), None);
    assert_eq!(g.get(3, 4), Some(Square::Empty));
    assert_eq!(g.get(1, 1), None);
    assert_eq!(g.get(2, 1), Some(Square::Empty));
}

#[test]
fn diamond_counts_the_centre_lines_one_farther_out() {
    let g = Grid::new_diamond(2, 0);
    // The centre is (3, 3). Off the centre column a square is open when
    // dx + dy <= 2, on it when dy + 1 <= 2.
    let mut expected = Vec::new();
    for x in 1..=6i64 {
        for y in 1..=6i64 {
            let dx = (x - 3).abs();
            let mut dy = (y - 3).abs();
            if dx == 0 {
                dy += 1;
            }
            if dy == 0 {
                dy += 1;
            }
            let r = dx + dy;
            if r > 0 && r <= 2 {
                expected.push((x as usize, y as usize));
            }
        }
    }
    expected.sort();
    assert_eq!(coordinates(&g), expected);
    assert_eq!(g.get(3, 3), Some(Square::Empty));
    assert_eq!(g.get(3, 5), None);
    // On the centre row a square counts as one farther out too.
    assert_eq!(g.get(5, 3), None);
    assert_eq!(g.get(4, 3), Some(Square::Empty));
    assert_eq!(g.get(4, 4), Some(Square::Empty));
}

#[test]
fn outline_surrounds_the_squares() {
    let mut g = Grid::new();
    g.set_square(2, 2, Square::Empty);
    g.set_square(3, 2, Square::Empty);
    let mut outline = g.get_outline();
    outline.sort();
    assert_eq!(
        outline,
        vec![
            (1, 1),
            (1, 2),
            (1, 3),
            (2, 1),
            (2, 3),
            (3, 1),
            (3, 3),
            (4, 1),
            (4, 2),
            (4, 3)
        ]
    );
}

#[test]
fn set_square_opens_and_overwrites() {
    let mut g = Grid::new_rectangle(2, 1);
    g.set_square(1, 1, Square::Fixed('Q'));
    assert_eq!(g.get(1, 1), Some(Square::Fixed('Q')));
    assert_eq!(g.get(2, 1), Some(Square::Empty));
    g.set_square(5, 5, Square::Solved('x'));
    assert_eq!(g.get(5, 5), Some(Square::Solved('x')));
    assert_eq!(g.squares().len(), 3);
    assert!(g.remove_square(1, 1));
    assert!(!g.remove_square(1, 1));
    assert_eq!(g.get(1, 1), None);
    assert_eq!(g.squares().len(), 2);
}

fn shown(g: &Grid, x: usize, y: usize) -> char {
    match g.get(x, y) {
        Some(Square::Fixed(ch)) | Some(Square::Solved(ch)) => ch,
        other => panic!("no letter at ({}, {}): {:?}", x, y, other),
    }
}

#[test]
fn three_by_three_with_a_pin_is_solved() {
    let words = [
        "CAT", "CAR", "COT", "ARE", "ATE", "TEA", "TEN", "RED", "ORE", "ONE", "TOE", "EAT", "ERA",
        "CAB", "ABE", "BED", "CAN", "ANT", "NET", "ACE", "TED", "TAN", "ONT", "EEL",
    ];
    let dict = dictionary(&words);
    let mut g = Grid::new_rectangle(3, 3);
    g.set_square(1, 1, Square::Fixed('C'));
    assert!(g.solve(&dict));
    assert_eq!(g.get(1, 1), Some(Square::Fixed('C')));
    let mut slots = Vec::new();
    for y in 1..=3 {
        slots.push((1..=3).map(|x| shown(&g, x, y)).collect::<String>());
    }
    for x in 1..=3 {
        slots.push((1..=3).map(|y| shown(&g, x, y)).collect::<String>());
    }
    assert!(slots[0].starts_with('C'));
    assert!(slots[3].starts_with('C'));
    for w in &slots {
        assert!(words.contains(&w.as_str()), "{} is no word", w);
    }
    for i in 0..slots.len() {
        for j in 0..i {
            assert_ne!(slots[i], slots[j]);
        }
    }
}

#[test]
fn fill_refuses_a_pin_that_no_word_fits() {
    let dict = dictionary(&["CAT", "DOG", "CAR"]);
    let mut g = Grid::new_rectangle(3, 3);
    g.set_square(1, 1, Square::Fixed('C'));
    g.set_square(2, 1, Square::Fixed('A'));
    g.set_square(3, 1, Square::Fixed('T'));
    g.set_square(1, 2, Square::Fixed('Z'));
    g.set_square(3, 3, Square::Solved('q'));
    let before = g.squares().clone();
    assert_eq!(g.fill(&dict, 1000), Fill::Refused);
    assert_eq!(g.squares(), &before);
    assert!(!g.solve(&dict));
    assert_eq!(g.get(1, 2), Some(Square::Fixed('Z')));
    assert_eq!(g.get(3, 3), Some(Square::Solved('q')));
}

#[test]
fn fill_refuses_a_grid_with_a_slot_that_no_word_fits() {
    let dict = dictionary(&["AB", "CD"]);
    let mut g = Grid::new_rectangle(3, 2);
    assert_eq!(g.fill(&dict, 1000), Fill::Refused);
}

#[test]
fn fill_reports_that_the_search_found_no_fill() {
    let dict = dictionary(&["AB", "BA", "AA", "BB"]);
    let mut g = Grid::new_rectangle(2, 2);
    g.set_square(1, 1, Square::Fixed('A'));
    g.set_square(2, 2, Square::Solved('b'));
    assert_eq!(g.fill(&dict, 1000), Fill::Unsolvable);
    assert_eq!(g.get(1, 1), Some(Square::Fixed('A')));
    assert_eq!(g.get(2, 1), Some(Square::Empty));
    assert_eq!(g.get(1, 2), Some(Square::Empty));
    assert_eq!(g.get(2, 2), Some(Square::Empty));
}

#[test]
fn fill_that_runs_out_of_budget_keeps_what_is_settled() {
    // Every first letter leads to a dead end, so a budget of no dead end runs out.
    let dict = dictionary(&["AB", "BC", "CA", "XY"]);
    let mut g = Grid::new_rectangle(2, 2);
    assert_eq!(g.fill(&dict, 0), Fill::Incomplete);
    for entry in g.squares() {
        assert!(matches!(entry.1, Square::Empty | Square::Solved(_)));
    }
    assert_eq!(g.fill(&dict, 1000), Fill::Unsolvable);
}

#[test]
fn fill_drops_the_letters_of_an_earlier_search() {
    let dict = dictionary(&["AB", "CD", "AC", "BD"]);
    let mut g = Grid::new_rectangle(2, 2);
    g.set_square(1, 1, Square::Solved('Q'));
    assert_eq!(g.fill(&dict, 1000), Fill::Solved);
    let top: String = (1..=2).map(|x| shown(&g, x, 1)).collect();
    let left: String = (1..=2).map(|y| shown(&g, 1, y)).collect();
    assert!(top == "AB" || top == "AC");
    assert!(left == "AB" || left == "AC");
    assert_ne!(top, left);
    assert_eq!(shown(&g, 2, 2), 'D');
}

#[test]
fn fill_with_a_ring_uses_the_slots_that_exist() {
    // A ring of eight squares around a wall: four slots of length 3.
    let mut g = Grid::new_rectangle(3, 3);
    assert!(g.remove_square(2, 2));
    let words = ["CAT", "TOE", "CUB", "BEE"];
    let dict = dictionary(&words);
    assert_eq!(g.fill(&dict, 1000), Fill::Solved);
    let top: String = (1..=3).map(|x| shown(&g, x, 1)).collect();
    let bottom: String = (1..=3).map(|x| shown(&g, x, 3)).collect();
    let left: String = (1..=3).map(|y| shown(&g, 1, y)).collect();
    let right: String = (1..=3).map(|y| shown(&g, 3, y)).collect();
    for w in [&top, &bottom, &left, &right] {
        assert!(words.contains(&w.as_str()), "{} is no word", w);
    }
    assert_eq!(top.as_bytes()[0], left.as_bytes()[0]);
    assert_eq!(top.as_bytes()[2], right.as_bytes()[0]);
    assert_eq!(bottom.as_bytes()[0], left.as_bytes()[2]);
    assert_eq!(bottom.as_bytes()[2], right.as_bytes()[2]);
}
