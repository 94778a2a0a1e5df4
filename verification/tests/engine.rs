use crossword::dictionary::Dictionary;
use crossword::engine::{Engine, SolveResult, Step};
use crossword::error::EngineError;
use crossword::puzzle::Puzzle;

fn dictionary(words: &[&str]) -> Dictionary {
    let mut d = Dictionary::new();
    for w in words {
        d.add(w).unwrap();
    }
    d
}

fn rectangle(width: usize, height: usize) -> Vec<(usize, usize)> {
    let mut coords = Vec::new();
    for y in 1..=height {
        for x in 1..=width {
            coords.push((x, y));
        }
    }
    coords
}

fn engine(width: usize, height: usize, dict: &Dictionary) -> Engine<'_> {
    let puzzle = Puzzle::new(&rectangle(width, height)).unwrap();
    Engine::new(puzzle, dict).unwrap()
}

fn letters_of(fill: &[(usize, char)], cells: usize) -> Vec<char> {
    let mut out = vec!['?'; cells];
    for (c, ch) in fill {
        out[*c] = *ch;
    }
    out
}

fn slot_words(e: &Engine, letters: &[char]) -> Vec<String> {
    let p = e.puzzle();
    p.lines
        .iter()
        .map(|l| l.cell_indices.iter().map(|c| letters[*c]).collect::<String>())
        .collect()
}

fn assert_valid_fill(e: &Engine, fill: &[(usize, char)], words: &[&str]) {
    let letters = letters_of(fill, e.cell_count());
    assert!(letters.iter().all(|ch| *ch != '?'));
    let slots = slot_words(e, &letters);
    for w in &slots {
        assert!(words.contains(&w.as_str()), "{} is no word", w);
    }
    for i in 0..slots.len() {
        for j in 0..i {
            assert_ne!(slots[i], slots[j]);
        }
    }
}

#[test]
fn two_by_two_is_solved() {
    let words = ["AB", "BA", "AA", "BB", "AC", "CB", "BD", "CD"];
    let dict = dictionary(&words);
    let mut e = engine(2, 2, &dict);
    match e.solve(1000) {
        SolveResult::Solved(fill) => {
            assert_eq!(fill.len(), 4);
            assert_valid_fill(&e, &fill, &words);
        }
        other => panic!("expected a fill, got {:?}", other),
    }
}

#[test]
fn two_by_two_needs_four_different_words() {
    // Each of the two rows and two columns needs a word of its own; no square of
    // the letters A and B reads four different words.
    let words = ["AB", "BA", "AA", "BB"];
    let dict = dictionary(&words);
    let mut e = engine(2, 2, &dict);
    match e.solve(1000) {
        SolveResult::Unsolvable => {}
        other => panic!("expected no fill, got {:?}", other),
    }
}

#[test]
fn unsolvable_pin_is_reported() {
    let words = ["CAT", "DOG", "CAR"];
    let dict = dictionary(&words);
    let mut e = engine(3, 3, &dict);
    assert_eq!(e.pin(0, 'C'), Ok(()));
    // No word starts with A, so the second column refuses it; and none with Z.
    assert_eq!(e.pin(1, 'A'), Err(EngineError::InvalidLetter));
    assert_eq!(e.pin(3, 'Z'), Err(EngineError::InvalidLetter));
    assert_eq!(e.pin(0, 'C'), Err(EngineError::AlreadyChosen));
    assert_eq!(e.pin(1, 'a'), Err(EngineError::InvalidLetter));
    match e.solve(1000) {
        SolveResult::Unsolvable => {}
        other => panic!("expected no fill, got {:?}", other),
    }
}

#[test]
fn one_by_one_grid_solves_immediately() {
    let words = ["A", "I", "AB"];
    let dict = dictionary(&words);
    let mut e = engine(1, 1, &dict);
    assert_eq!(e.line_count(), 1);
    match e.solve(0) {
        SolveResult::Solved(fill) => {
            assert_eq!(fill.len(), 1);
            assert!(fill[0] == (0, 'A') || fill[0] == (0, 'I'));
        }
        other => panic!("expected a fill, got {:?}", other),
    }
}

#[test]
fn slot_without_words_is_an_invalid_grid() {
    let puzzle = Puzzle::new(&rectangle(3, 1)).unwrap();
    let dict = dictionary(&["AB", "ABCD"]);
    let r = Engine::new(puzzle, &dict);
    assert!(matches!(r, Err(EngineError::InvalidGrid)));
}

#[test]
fn duplicate_cell_is_an_invalid_grid() {
    let r = Puzzle::new(&vec![(1, 1), (2, 1), (1, 1)]);
    assert!(matches!(r, Err(EngineError::InvalidGrid)));
}

#[test]
fn parallel_slots_cannot_share_one_word() {
    // Two across slots of length 2 that do not cross: only one copy of "AB" exists.
    let coords = vec![(1, 1), (2, 1), (1, 3), (2, 3)];
    let puzzle = Puzzle::new(&coords).unwrap();
    let one = dictionary(&["AB"]);
    let mut e = Engine::new(puzzle, &one).unwrap();
    match e.solve(1000) {
        SolveResult::Unsolvable => {}
        other => panic!("expected no fill, got {:?}", other),
    }
    let puzzle = Puzzle::new(&coords).unwrap();
    let two = dictionary(&["AB", "CD"]);
    let mut e = Engine::new(puzzle, &two).unwrap();
    match e.solve(1000) {
        SolveResult::Solved(fill) => assert_valid_fill(&e, &fill, &["AB", "CD"]),
        other => panic!("expected a fill, got {:?}", other),
    }
}

#[test]
fn commit_then_undo_restores_the_snapshot() {
    let words = ["AB", "BA", "AA", "BB", "AC", "CA"];
    let dict = dictionary(&words);
    let mut e = engine(2, 2, &dict);
    let before = e.snapshot();
    let token = e.commit(0, 0).expect("A fits the first cell");
    let during = e.snapshot();
    assert_eq!(during.choices[0], Some('A'));
    assert!(during.words_remaining[0] < before.words_remaining[0]);
    e.undo(token);
    let after = e.snapshot();
    assert_eq!(before.choices, after.choices);
    assert_eq!(before.words_remaining, after.words_remaining);
    for c in 0..e.cell_count() {
        assert_eq!(before.char_dists[c].counts, after.char_dists[c].counts);
    }
}

#[test]
fn next_choice_picks_the_tightest_cell() {
    let words = ["AB", "AC", "BA", "CA", "AA"];
    let dict = dictionary(&words);
    let e = engine(2, 2, &dict);
    match e.next_choice() {
        Step::Many(cell, letters) => {
            let total = e.char_dist(cell).total();
            for c in 0..e.cell_count() {
                assert!(total <= e.char_dist(c).total());
            }
            assert!(letters.len() > 1);
            let d = e.char_dist(cell);
            for w in letters.windows(2) {
                let (a, b) = (d.count(w[0]), d.count(w[1]));
                assert!(a > b || (a == b && w[0] < w[1]));
            }
        }
        other => panic!("expected several letters, got {:?}", other),
    }
}

#[test]
fn budget_exhaustion_is_incomplete_and_keeps_the_state() {
    // Every first letter leads to a dead end, so a budget of zero dead ends runs out.
    let words = ["AB", "BC", "CA", "XY"];
    let dict = dictionary(&words);
    let mut e = engine(2, 2, &dict);
    let before = e.snapshot();
    match e.solve(0) {
        SolveResult::Incomplete(cells) => {
            let snap = e.snapshot();
            assert_eq!(before.choices, snap.choices);
            assert_eq!(before.words_remaining, snap.words_remaining);
            for (c, _) in cells {
                assert_eq!(snap.char_dists[c].letter_set().len(), 1);
            }
        }
        other => panic!("expected an incomplete search, got {:?}", other),
    }
    match e.solve(1000) {
        SolveResult::Unsolvable => {}
        other => panic!("expected no fill, got {:?}", other),
    }
}

fn ring() -> Vec<(usize, usize)> {
    let mut coords = rectangle(3, 3);
    coords.retain(|c| *c != (2, 2));
    coords
}

#[test]
fn prefilter_shrinks_and_the_search_still_succeeds() {
    let words = [
        "CAT", "TOE", "CUB", "BEE", "DOG", "PIG", "HEN", "FOX", "OWL", "YAK",
    ];
    let dict = dictionary(&words);
    let puzzle = Puzzle::new(&ring()).unwrap();
    let mut e = Engine::new(puzzle, &dict).unwrap();
    assert_eq!(e.line_count(), 4);
    let before = e.snapshot();
    assert_eq!(before.words_remaining, vec![10, 10, 10, 10]);
    let counts = e.prefilter().expect("the ring can be filled");
    assert_eq!(counts.before, 40);
    assert!(counts.after <= counts.before);
    let factor = counts.before as f64 / counts.after as f64;
    assert!(factor >= 1.0);
    let after = e.snapshot();
    assert_eq!(
        counts.after,
        after.words_remaining.iter().map(|n| *n as u128).sum::<u128>()
    );
    for li in 0..e.line_count() {
        assert!(after.words_remaining[li] <= before.words_remaining[li]);
        for id in e.line(li).words() {
            let word: String = dict
                .word(*id)
                .iter()
                .map(|l| (b'A' + l) as char)
                .collect();
            assert!(["CAT", "TOE", "CUB", "BEE"].contains(&word.as_str()), "{} was kept", word);
        }
    }
    match e.solve(1000) {
        SolveResult::Solved(fill) => {
            let letters = letters_of(&fill, e.cell_count());
            for w in slot_words(&e, &letters) {
                assert!(["CAT", "TOE", "CUB", "BEE"].contains(&w.as_str()));
            }
        }
        other => panic!("expected a fill, got {:?}", other),
    }
}

#[test]
fn prefilter_twice_is_prefilter_once() {
    let words = [
        "CAT", "TOE", "CUB", "BEE", "DOG", "PIG", "HEN", "FOX", "OWL", "YAK",
    ];
    let dict = dictionary(&words);
    let puzzle = Puzzle::new(&ring()).unwrap();
    let mut e = Engine::new(puzzle, &dict).unwrap();
    let first = e.prefilter().unwrap();
    let once = e.snapshot();
    let lists: Vec<Vec<u32>> = (0..e.line_count()).map(|li| e.line(li).words().clone()).collect();
    let second = e.prefilter().unwrap();
    let twice = e.snapshot();
    assert_eq!(second.before, first.after);
    assert_eq!(second.after, first.after);
    assert_eq!(once.choices, twice.choices);
    assert_eq!(once.words_remaining, twice.words_remaining);
    for li in 0..e.line_count() {
        assert_eq!(&lists[li], e.line(li).words());
    }
    for c in 0..e.cell_count() {
        assert_eq!(once.char_dists[c].counts, twice.char_dists[c].counts);
    }
}

#[test]
fn prefilter_that_empties_a_slot_is_a_dead_end() {
    // No across word shares a letter with a down word where they cross.
    let words = ["AB", "CD"];
    let dict = dictionary(&words);
    let mut e = engine(2, 2, &dict);
    let before = e.snapshot();
    assert_eq!(e.prefilter(), Err(EngineError::DeadEnd));
    let after = e.snapshot();
    assert_eq!(before.words_remaining, after.words_remaining);
    assert_eq!(before.choices, after.choices);
    match e.solve(1000) {
        SolveResult::Unsolvable => {}
        other => panic!("expected no fill, got {:?}", other),
    }
}

#[test]
fn prefilter_claims_the_words_that_slots_come_to_hold() {
    let words = ["CAT", "TOE", "CUB", "BEE", "DOG"];
    let dict = dictionary(&words);
    let puzzle = Puzzle::new(&ring()).unwrap();
    let mut e = Engine::new(puzzle, &dict).unwrap();
    let counts = e.prefilter().unwrap();
    assert_eq!(counts.before, 20);
    // DOG goes; a slot that is left with a single word holds it.
    for li in 0..e.line_count() {
        let line = e.line(li);
        assert_eq!(line.claimed_word().is_some(), line.word_count() == 1);
    }
    match e.solve(1000) {
        SolveResult::Solved(_) => {}
        other => panic!("expected a fill, got {:?}", other),
    }
}

#[test]
fn commit_and_undo_keep_the_invariants_over_many_rounds() {
    let words = [
        "AB", "BA", "AA", "BB", "AC", "CA", "CB", "BC", "CC", "AD", "DA", "BD", "DB", "CD", "DC",
    ];
    let dict = dictionary(&words);
    let mut e = engine(2, 2, &dict);
    let start = e.snapshot();
    let start_lists: Vec<Vec<u32>> =
        (0..e.line_count()).map(|li| e.line(li).words().clone()).collect();
    let mut seed: u64 = 0x2545_F491_4F6C_DD1D;
    let mut next = move || {
        seed ^= seed << 13;
        seed ^= seed >> 7;
        seed ^= seed << 17;
        seed
    };
    for _ in 0..10_000 {
        let cell = (next() % e.cell_count() as u64) as usize;
        let letters = e.char_dist(cell).letters_by_frequency();
        if letters.is_empty() {
            continue;
        }
        let letter = letters[(next() % letters.len() as u64) as usize];
        if let Some(token) = e.commit(cell, letter) {
            // Each slot's histograms count its words, and each cell's
            // distribution is the product of its two slots' histograms.
            for li in 0..e.line_count() {
                let line = e.line(li);
                for p in 0..line.len() {
                    assert_eq!(line.inventory(p).total(), line.word_count() as u64);
                }
                assert_eq!(line.claimed_word().is_some(), line.word_count() == 1);
            }
            for c in 0..e.cell_count() {
                let cell = e.puzzle().cells[c];
                let (a, b) = (cell.across.unwrap(), cell.down.unwrap());
                for l in 0..26u8 {
                    assert_eq!(
                        e.char_dist(c).count(l),
                        e.line(a.0).inventory(a.1).count(l) * e.line(b.0).inventory(b.1).count(l)
                    );
                }
            }
            e.undo(token);
        }
        let now = e.snapshot();
        assert_eq!(start.choices, now.choices);
        assert_eq!(start.words_remaining, now.words_remaining);
    }
    for li in 0..e.line_count() {
        assert_eq!(&start_lists[li], e.line(li).words());
    }
    for c in 0..e.cell_count() {
        assert_eq!(start.char_dists[c].counts, e.snapshot().char_dists[c].counts);
    }
}

#[test]
fn solve_gives_the_same_fill_each_time() {
    let words = [
        "CAT", "CAR", "COT", "ARE", "ATE", "TEA", "TEN", "RED", "ORE", "ONE", "TOE", "EAT", "ERA",
        "CAB", "ABE", "BED", "CAN", "ANT", "NET", "ACE", "TED", "TAN", "ONT", "EEL",
    ];
    let dict = dictionary(&words);
    let mut fills = Vec::new();
    for _ in 0..3 {
        let mut e = engine(3, 3, &dict);
        match e.solve(100_000) {
            SolveResult::Solved(fill) => fills.push(fill),
            other => panic!("expected a fill, got {:?}", other),
        }
    }
    assert_eq!(fills[0], fills[1]);
    assert_eq!(fills[1], fills[2]);
}

#[test]
fn a_letter_whose_only_word_is_claimed_is_a_dead_end() {
    let words = ["AB", "CD", "EF", "BX"];
    let dict = dictionary(&words);
    let mut e = engine(2, 2, &dict);
    // B in the lower left corner leaves AB to the left column and BX to the
    // bottom row, which claim them.
    assert_eq!(e.pin(2, 'B'), Ok(()));
    let left = e.puzzle().cells[2].down.unwrap().0;
    let bottom = e.puzzle().cells[2].across.unwrap().0;
    assert_eq!(e.line(left).claimed_word(), Some(0));
    assert_eq!(e.line(bottom).claimed_word(), Some(3));
    // A fits the upper left corner by the counts, but the top row's only word
    // with A in front is AB, which the left column holds.
    assert_eq!(e.char_dist(0).count(0), 1);
    let before = e.snapshot();
    assert_eq!(e.pin(0, 'A'), Err(EngineError::DeadEnd));
    let after = e.snapshot();
    assert_eq!(before.choices, after.choices);
    assert_eq!(before.words_remaining, after.words_remaining);
    assert!(e.commit(0, 0).is_none());
}

#[test]
fn the_only_word_of_a_length_is_claimed_from_the_start() {
    // An L of a slot of three and a slot of two: one word of each length.
    let coords = vec![(1, 1), (2, 1), (3, 1), (1, 2)];
    let dict = dictionary(&["CAT", "CO"]);
    let puzzle = Puzzle::new(&coords).unwrap();
    let mut e = Engine::new(puzzle, &dict).unwrap();
    assert_eq!(e.line_count(), 2);
    assert_eq!(e.line(0).claimed_word(), Some(0));
    assert_eq!(e.line(1).claimed_word(), Some(1));
    match e.solve(0) {
        SolveResult::Solved(fill) => {
            assert_eq!(fill, vec![(0, 'C'), (1, 'A'), (2, 'T'), (3, 'O')]);
        }
        other => panic!("expected a fill, got {:?}", other),
    }
}

#[test]
fn solve_on_a_filled_grid_is_solved_at_once() {
    let words = ["AB", "CD", "AC", "BD"];
    let dict = dictionary(&words);
    let mut e = engine(2, 2, &dict);
    let first = match e.solve(1000) {
        SolveResult::Solved(fill) => fill,
        other => panic!("expected a fill, got {:?}", other),
    };
    assert!(matches!(e.next_choice(), Step::Success));
    match e.solve(0) {
        SolveResult::Solved(fill) => assert_eq!(fill, first),
        other => panic!("expected a fill, got {:?}", other),
    }
}

#[test]
fn the_budget_counts_dead_ends() {
    // No fill exists; the search finds that out after some dead ends. With a
    // smaller budget it gives up, with that budget or more it says so.
    let words = ["AB", "BC", "CA", "XY"];
    let dict = dictionary(&words);
    let mut needed = None;
    for budget in 0..200u64 {
        let mut e = engine(2, 2, &dict);
        match e.solve(budget) {
            SolveResult::Incomplete(_) => assert!(needed.is_none()),
            SolveResult::Unsolvable => {
                if needed.is_none() {
                    needed = Some(budget);
                }
            }
            SolveResult::Solved(fill) => panic!("no fill was expected, got {:?}", fill),
        }
    }
    let needed = needed.expect("a budget of 200 dead ends is enough");
    assert!(needed >= 1);
}
