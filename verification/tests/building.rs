use word_search::grid::{build_grid, place_word};

/// Scans the grid for `word` along each of the eight compass directions,
/// exactly as a solver would read the puzzle.
fn present_in_grid(grid: &[char], size: usize, word: &str) -> bool {
    let w: Vec<char> = word.chars().collect();
    let dirs: [(isize, isize); 8] = [
        (0, -1),
        (1, -1),
        (1, 0),
        (1, 1),
        (0, 1),
        (-1, 1),
        (-1, 0),
        (-1, -1),
    ];
    for y in 0..size {
        for x in 0..size {
            for (dx, dy) in dirs {
                let mut ok = true;
                for (t, &c) in w.iter().enumerate() {
                    let cx = x as isize + dx * t as isize;
                    let cy = y as isize + dy * t as isize;
                    if cx < 0 || cy < 0 || cx >= size as isize || cy >= size as isize {
                        ok = false;
                        break;
                    }
                    if grid[cx as usize + cy as usize * size] != c {
                        ok = false;
                        break;
                    }
                }
                if ok {
                    return true;
                }
            }
        }
    }
    false
}

#[test]
fn five_by_five_with_two_short_words() {
    let result = build_grid("cat\ndog\nelephant", 5);
    assert_eq!(result.grid.len(), 25);
    for &c in result.grid.iter() {
        assert!(c.is_ascii_alphabetic());
    }
    for word in result.words.iter() {
        assert!(word == "cat" || word == "dog");
        assert_eq!(word.len(), 3);
        assert!(present_in_grid(&result.grid, 5, word));
    }
}

#[test]
fn single_cell_grid_places_nothing() {
    let result = build_grid("cat\ndog\nelephant", 1);
    assert!(result.words.is_empty());
    assert_eq!(result.grid.len(), 1);
    assert!(result.grid[0].is_ascii_uppercase());
}

#[test]
fn words_longer_than_the_grid_leave_only_filler() {
    let result = build_grid("elephant\ngiraffe", 4);
    assert!(result.words.is_empty());
    assert_eq!(result.grid.len(), 16);
    for &c in result.grid.iter() {
        assert!(c.is_ascii_uppercase());
    }
}

#[test]
fn word_quota_is_twice_the_grid_size() {
    let mut text = String::new();
    for i in 0..40 {
        text.push_str(&format!("wd{:02}\n", i));
    }
    let result = build_grid(&text, 5);
    assert!(result.words.len() <= 10);
    for word in result.words.iter() {
        assert!(present_in_grid(&result.grid, 5, word));
    }
}

#[test]
fn every_placed_word_can_be_read_back() {
    let text = "bat\nowl\nfox\nelk\nram\nhen\nsow\ncub\npup\nkit";
    let result = build_grid(text, 8);
    assert_eq!(result.grid.len(), 64);
    for &c in result.grid.iter() {
        assert!(c.is_ascii_alphabetic());
        assert_ne!(c, ' ');
    }
    for word in result.words.iter() {
        assert!(present_in_grid(&result.grid, 8, word));
    }
}

#[test]
fn two_builds_from_the_same_input_are_both_valid() {
    let text = "bat\nowl\nfox\nelk";
    let first = build_grid(text, 6);
    let second = build_grid(text, 6);
    for result in [&first, &second] {
        assert_eq!(result.grid.len(), 36);
        for &c in result.grid.iter() {
            assert!(c.is_ascii_alphabetic());
        }
        for word in result.words.iter() {
            assert!(present_in_grid(&result.grid, 6, word));
        }
    }
}

#[test]
fn builder_invents_no_duplicates() {
    // "cat" appears once in the source, so it may appear at most once
    for _ in 0..10 {
        let result = build_grid("cat\ndog", 5);
        let cats = result.words.iter().filter(|w| w.as_str() == "cat").count();
        let dogs = result.words.iter().filter(|w| w.as_str() == "dog").count();
        assert!(cats <= 1);
        assert!(dogs <= 1);
    }
}

#[test]
fn placement_on_a_blank_grid_writes_exactly_the_word() {
    let mut rng = rand::thread_rng();
    let mut grid = vec![' '; 25];
    // with room to spare, a blank grid has no collisions: every try lands
    let placed = place_word(&mut rng, &mut grid, 5, "cat");
    assert!(placed);
    assert!(present_in_grid(&grid, 5, "cat"));
    let written: usize = grid.iter().filter(|&&c| c != ' ').count();
    assert_eq!(written, 3);
}

#[test]
fn word_as_long_as_the_grid_fits_exactly() {
    // a word of length grid_size still has one valid start per direction
    let mut rng = rand::thread_rng();
    for _ in 0..50 {
        let mut grid = vec![' '; 16];
        let placed = place_word(&mut rng, &mut grid, 4, "cats");
        assert!(placed);
        assert!(present_in_grid(&grid, 4, "cats"));
        let written: usize = grid.iter().filter(|&&c| c != ' ').count();
        assert_eq!(written, 4);
    }
}

#[test]
fn a_placeable_candidate_is_always_placed() {
    // any non-empty filtered candidate list yields at least one word
    for _ in 0..10 {
        let result = build_grid("cats", 4);
        assert_eq!(result.words, vec!["cats".to_string()]);
        assert!(present_in_grid(&result.grid, 4, "cats"));
    }
    let result = build_grid("cat\ndog", 5);
    assert!(!result.words.is_empty());
}

#[test]
fn failed_placement_leaves_the_grid_unchanged() {
    let mut rng = rand::thread_rng();
    // a full grid rejects every word by collision, never by mutation
    let mut grid = vec!['q'; 25];
    for _ in 0..20 {
        let placed = place_word(&mut rng, &mut grid, 5, "cat");
        assert!(!placed);
        assert!(grid.iter().all(|&c| c == 'q'));
    }
}
