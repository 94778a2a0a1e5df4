use crossword::control::{
    clamp_cursor, key, next_focus, square_under, step_cursor, Action, KeyState, Move,
};
use crossword::dictionary::{Dictionary, DictionaryError};
use crossword::indices::WordIndices;
use crossword::letters::{LetterInventory, LetterSet};
use crossword::line::{ConstrainResult, LineState};
use crossword::puzzle::{Puzzle, ACROSS, DOWN};

fn dictionary(words: &[&str]) -> Dictionary {
    let mut d = Dictionary::new();
    for w in words {
        d.add(w).unwrap();
    }
    d
}

#[test]
fn letter_index_is_for_uppercase_letters_only() {
    assert_eq!(LetterSet::index('A'), Some(0));
    assert_eq!(LetterSet::index('Z'), Some(25));
    assert_eq!(LetterSet::index('a'), None);
    assert_eq!(LetterSet::index('@'), None);
    assert_eq!(LetterSet::index('['), None);
    assert_eq!(LetterSet::index_of_byte(b'M'), Some(12));
    assert_eq!(LetterSet::index_of_byte(b'm'), None);
    assert_eq!(LetterSet::letter(0), 'A');
    assert_eq!(LetterSet::letter(25), 'Z');
}

#[test]
fn letter_set_operations() {
    let mut a = LetterSet::new();
    assert!(a.is_empty());
    a.insert_index(0);
    a.insert_index(2);
    a.insert_index(25);
    a.insert_index(2);
    assert_eq!(a.len(), 3);
    assert!(a.contains_index(2));
    assert!(!a.contains_index(1));
    assert!(!a.contains_index(26));
    let mut b = LetterSet::new();
    b.insert_index(2);
    b.insert_index(3);
    assert_eq!(LetterSet::union(&a, &b).indices(), vec![0, 2, 3, 25]);
    assert_eq!(LetterSet::intersect(&a, &b).indices(), vec![2]);
    assert_eq!(LetterSet::difference(&a, &b).indices(), vec![0, 25]);
    assert_eq!(a.chars(), vec!['A', 'C', 'Z']);
    assert!(LetterSet::intersect(&b, &LetterSet::new()).is_empty());
}

#[test]
fn letter_inventory_operations() {
    let mut a = LetterInventory::new();
    assert_eq!(a.total(), 0);
    assert!(a.letter_set().is_empty());
    a.add(1);
    a.add(1);
    a.add(4);
    assert_eq!(a.count(1), 2);
    assert_eq!(a.count(4), 1);
    assert_eq!(a.count(0), 0);
    assert_eq!(a.total(), 3);
    assert_eq!(a.entries(), vec![(1, 2), (4, 1)]);
    assert_eq!(a.letter_set().indices(), vec![1, 4]);
    let mut b = LetterInventory::new();
    b.add(1);
    b.add(1);
    b.add(1);
    b.add(7);
    let p = LetterInventory::product(&a, &b);
    assert_eq!(p.count(1), 6);
    assert_eq!(p.count(4), 0);
    assert_eq!(p.count(7), 0);
    assert_eq!(p.total(), 6);
    assert_eq!(p.letter_set().indices(), vec![1]);
}

#[test]
fn letters_by_frequency_breaks_ties_by_letter() {
    let mut a = LetterInventory::new();
    for l in [5u8, 3, 3, 9, 9, 1, 9] {
        a.add(l);
    }
    assert_eq!(a.letters_by_frequency(), vec![9, 3, 1, 5]);
    assert_eq!(LetterInventory::new().letters_by_frequency(), Vec::<u8>::new());
}

#[test]
fn dictionary_refuses_what_is_no_new_uppercase_word() {
    let mut d = Dictionary::new();
    assert_eq!(d.add("CAT"), Ok(0));
    assert_eq!(d.add("DOG"), Ok(1));
    assert_eq!(d.add("CAT"), Err(DictionaryError::Duplicate));
    assert_eq!(d.add(""), Err(DictionaryError::Empty));
    assert_eq!(d.add("cat"), Err(DictionaryError::NotUppercase));
    assert_eq!(d.add("CA T"), Err(DictionaryError::NotUppercase));
    assert_eq!(d.add("CAFÉ"), Err(DictionaryError::NotUppercase));
    assert_eq!(d.add("A"), Ok(2));
    assert_eq!(d.len(), 3);
    assert_eq!(d.word(0), &vec![2, 0, 19]);
    assert_eq!(d.word_len(2), 1);
    assert_eq!(d.letter_at(1, 2), 6);
    assert_eq!(d.find(&vec![3, 14, 6]), Some(1));
    assert_eq!(d.find(&vec![3, 14]), None);
}

#[test]
fn posting_lists_are_by_length_position_and_letter() {
    let d = dictionary(&["CAT", "AB", "CAR", "DOG", "BA", "COT"]);
    let ix = WordIndices::new(&d);
    assert_eq!(ix.max_len(), 3);
    assert_eq!(ix.by_length(3), &vec![0, 2, 3, 5]);
    assert_eq!(ix.by_length(2), &vec![1, 4]);
    assert_eq!(ix.by_length(1), &Vec::<u32>::new());
    assert_eq!(ix.by_length(0), &Vec::<u32>::new());
    assert_eq!(ix.by_length_pos_letter(3, 0, 2), &vec![0, 2, 5]);
    assert_eq!(ix.by_length_pos_letter(3, 1, 0), &vec![0, 2]);
    assert_eq!(ix.by_length_pos_letter(3, 2, 19), &vec![0, 5]);
    assert_eq!(ix.by_length_pos_letter(2, 1, 0), &vec![4]);
    assert_eq!(ix.by_length_pos_letter(3, 2, 0), &Vec::<u32>::new());
}

#[test]
fn claim_keeps_the_registry_sorted_and_fails_on_a_second_claim() {
    let d = dictionary(&["CAT", "AB", "CAR", "DOG", "BA", "COT"]);
    let mut ix = WordIndices::new(&d);
    assert!(ix.claim(3, 3));
    assert!(ix.claim(3, 0));
    assert!(ix.claim(3, 5));
    assert!(!ix.claim(3, 3));
    assert_eq!(ix.claimed(3), &vec![0, 3, 5]);
    assert_eq!(ix.claimed(2), &Vec::<u32>::new());
    assert!(ix.unclaim(3, 3));
    assert!(!ix.unclaim(3, 3));
    assert_eq!(ix.claimed(3), &vec![0, 5]);
    assert!(ix.claim(3, 3));
    assert!(ix.unclaim(3, 3));
    assert_eq!(ix.claimed(3), &vec![0, 5]);
}

#[test]
fn constrain_keeps_the_filtered_words_that_are_not_claimed() {
    let d = dictionary(&["CAT", "CAR", "COT", "DOG", "CUB"]);
    let ix = WordIndices::new(&d);
    let mut line = LineState::initial(&d, 3, ix.by_length(3), &vec![]);
    assert_eq!(line.words(), &vec![0, 1, 2, 3, 4]);
    assert_eq!(line.len(), 3);
    assert_eq!(line.inventory(0).count(2), 4);
    assert_eq!(line.inventory(0).count(3), 1);
    assert_eq!(line.inventory(0).total(), 5);
    assert_eq!(line.claimed_word(), None);
    // Words with C in front, of which CAT is claimed by another slot.
    let r = line.constrain(&d, ix.by_length_pos_letter(3, 0, 2), &vec![0]);
    assert_eq!(r, ConstrainResult::Narrowed);
    assert_eq!(line.words(), &vec![1, 2, 4]);
    assert_eq!(line.inventory(1).entries(), vec![(0, 1), (14, 1), (20, 1)]);
    // Words with A second: only CAR is left.
    let r = line.constrain(&d, ix.by_length_pos_letter(3, 1, 0), &vec![0]);
    assert_eq!(r, ConstrainResult::Unique(1));
    assert_eq!(line.words(), &vec![1]);
    assert_eq!(line.claimed_word(), Some(1));
    // The slot's own word stays though it is claimed.
    let r = line.constrain(&d, ix.by_length_pos_letter(3, 2, 17), &vec![0, 1]);
    assert_eq!(r, ConstrainResult::Narrowed);
    assert_eq!(line.words(), &vec![1]);
    // No word has T last.
    let (next, r) = line.constrained(&d, ix.by_length_pos_letter(3, 2, 19), &vec![0, 1]);
    assert_eq!(r, ConstrainResult::Failed);
    assert_eq!(next.word_count(), 0);
    assert_eq!(next.claimed_word(), None);
    assert_eq!(line.words(), &vec![1]);
}

#[test]
fn puzzle_of_a_rectangle_has_a_slot_for_each_row_and_column() {
    let coords = vec![(1, 1), (2, 1), (3, 1), (1, 2), (2, 2), (3, 2)];
    let p = Puzzle::new(&coords).unwrap();
    assert_eq!(p.cells.len(), 6);
    assert_eq!(p.lines.len(), 5);
    let across: Vec<&Vec<usize>> = p
        .lines
        .iter()
        .filter(|l| l.direction == ACROSS)
        .map(|l| &l.cell_indices)
        .collect();
    let down: Vec<&Vec<usize>> = p
        .lines
        .iter()
        .filter(|l| l.direction == DOWN)
        .map(|l| &l.cell_indices)
        .collect();
    assert_eq!(across, vec![&vec![0, 1, 2], &vec![3, 4, 5]]);
    assert_eq!(down, vec![&vec![0, 3], &vec![1, 4], &vec![2, 5]]);
    assert_eq!(p.cells[4].across, Some((1, 1)));
    assert_eq!(p.cells[4].down, Some((3, 1)));
    assert_eq!((p.cells[4].x, p.cells[4].y), (2, 2));
}

#[test]
fn puzzle_leaves_out_the_runs_of_one_cell() {
    // An L: the corner has both slots, the ends have one each; a cell apart has
    // a slot of its own.
    let coords = vec![(1, 1), (2, 1), (1, 2), (5, 5)];
    let p = Puzzle::new(&coords).unwrap();
    assert_eq!(p.lines.len(), 3);
    assert_eq!(p.cells[0].across, Some((0, 0)));
    assert_eq!(p.cells[0].down, Some((2, 0)));
    assert_eq!(p.cells[1].across, Some((0, 1)));
    assert_eq!(p.cells[1].down, None);
    assert_eq!(p.cells[2].across, None);
    assert_eq!(p.cells[2].down, Some((2, 1)));
    assert_eq!(p.cells[3].across, Some((1, 0)));
    assert_eq!(p.cells[3].down, None);
    assert_eq!(p.lines[1].cell_indices, vec![3]);
    assert_eq!(p.lines[1].direction, ACROSS);
}

#[test]
fn puzzle_takes_the_cells_in_any_order() {
    let coords = vec![(2, 1), (1, 1), (3, 1)];
    let p = Puzzle::new(&coords).unwrap();
    assert_eq!(p.lines.len(), 1);
    assert_eq!(p.lines[0].cell_indices, vec![1, 0, 2]);
    assert_eq!(p.cells[0].across, Some((0, 1)));
    assert_eq!(p.cells[2].across, Some((0, 2)));
}

#[test]
fn keys_ask_for_actions() {
    assert_eq!(key(KeyState::Ready, 0x09), (KeyState::Ready, Some(Action::ToggleDirection)));
    assert_eq!(key(KeyState::Ready, 0x0a), (KeyState::Ready, Some(Action::Solve)));
    assert_eq!(key(KeyState::Ready, 0x20), (KeyState::Ready, Some(Action::Clear)));
    assert_eq!(key(KeyState::Ready, 0x7f), (KeyState::Ready, Some(Action::Remove)));
    assert_eq!(key(KeyState::Ready, b'q'), (KeyState::Ready, Some(Action::Fix('Q'))));
    assert_eq!(key(KeyState::Ready, b'{'), (KeyState::Ready, Some(Action::Fix('{'))));
    assert_eq!(key(KeyState::Ready, b'Q'), (KeyState::Ready, Some(Action::Unrecognized)));
    assert_eq!(key(KeyState::Ready, 0x1b), (KeyState::Escape, None));
    assert_eq!(key(KeyState::Escape, 0x5b), (KeyState::Bracket, None));
    assert_eq!(key(KeyState::Escape, 0x4f), (KeyState::Ready, Some(Action::UnknownEscape(0x4f))));
    assert_eq!(key(KeyState::Bracket, 0x41), (KeyState::Ready, Some(Action::Step(Move::Up))));
    assert_eq!(key(KeyState::Bracket, 0x42), (KeyState::Ready, Some(Action::Step(Move::Down))));
    assert_eq!(key(KeyState::Bracket, 0x43), (KeyState::Ready, Some(Action::Step(Move::Right))));
    assert_eq!(key(KeyState::Bracket, 0x44), (KeyState::Ready, Some(Action::Step(Move::Left))));
    assert_eq!(key(KeyState::Bracket, 0x5b), (KeyState::Ready, Some(Action::Nothing)));
    assert_eq!(
        key(KeyState::Bracket, 0x35),
        (KeyState::Ready, Some(Action::UnknownSequence(0x5b, 0x35)))
    );
}

#[test]
fn the_cursor_stays_on_the_board() {
    assert_eq!(clamp_cursor(0, 0), (1, 2));
    assert_eq!(clamp_cursor(-3, 7), (1, 7));
    assert_eq!(clamp_cursor(4, 1), (4, 2));
    assert_eq!(step_cursor(4, 5, Move::Left), (3, 5));
    assert_eq!(step_cursor(4, 5, Move::Right), (5, 5));
    assert_eq!(step_cursor(4, 5, Move::Up), (4, 4));
    assert_eq!(step_cursor(4, 5, Move::Down), (4, 6));
    assert_eq!(square_under(1, 2), (1, 1));
    assert_eq!(square_under(7, 9), (7, 8));
}

#[test]
fn the_focus_goes_to_the_next_view_that_takes_it() {
    let views = vec![false, true, false, true];
    assert_eq!(next_focus(0, &views, true), (2, true));
    assert_eq!(next_focus(2, &views, true), (4, true));
    assert_eq!(next_focus(4, &views, true), (5, false));
    assert_eq!(next_focus(5, &views, true), (5, false));
    assert_eq!(next_focus(5, &views, false), (4, true));
    assert_eq!(next_focus(4, &views, false), (2, true));
    assert_eq!(next_focus(2, &views, false), (0, false));
    assert_eq!(next_focus(0, &views, false), (0, false));
    assert_eq!(next_focus(0, &vec![], true), (1, false));
}
