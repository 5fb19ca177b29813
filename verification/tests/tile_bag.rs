use scrabble::common::{TilePlacement, MAX_PLAYER_TILES, WILD};
use scrabble::tile_bag::TileBag;
use std::collections::HashMap;

#[test]
fn test_tile_bag_initialization() {
    let bag = TileBag::new(2);

    // Total tiles should be 100 - 14 (7 per player * 2 players)
    assert_eq!(bag.get_tile_count(), 100 - MAX_PLAYER_TILES * 2);
}

#[test]
fn test_tile_bag_initializes_all_players() {
    let total_players = 4;
    let bag = TileBag::new(total_players);

    // Each player should have exactly MAX_PLAYER_TILES tiles
    for player in 0..total_players {
        let tiles_str = bag.get_tiles(player);
        assert_eq!(tiles_str.len(), MAX_PLAYER_TILES);
    }
}

#[test]
fn test_correct_tile_distribution() {
    let bag = TileBag::new(1);

    // Verify player has 7 tiles
    let player_tiles = bag.get_tiles(0);
    assert_eq!(player_tiles.len(), MAX_PLAYER_TILES);

    // 100 total - 7 for player = 93
    assert_eq!(bag.get_tile_count(), 100 - MAX_PLAYER_TILES);
}

#[test]
fn test_get_tiles_returns_string() {
    let bag = TileBag::new(2);

    let player_0_tiles = bag.get_tiles(0);
    let player_1_tiles = bag.get_tiles(1);

    // Both players should have tiles
    assert!(!player_0_tiles.is_empty());
    assert!(!player_1_tiles.is_empty());
    assert_eq!(player_0_tiles.len(), MAX_PLAYER_TILES);
    assert_eq!(player_1_tiles.len(), MAX_PLAYER_TILES);
}

#[test]
fn test_remove_and_replenish_basic() {
    let mut bag = TileBag::new(2);

    let initial_tiles = bag.get_tiles(0);
    let initial_tile_count = bag.get_tile_count();

    // Create a placement for the first tile
    let placements = vec![TilePlacement { coords: (0, 0), tile: initial_tiles.chars().next().unwrap() }];

    bag.remove_and_replenish(0, &placements);

    // Player should still have 7 tiles
    assert_eq!(bag.get_tiles(0).len(), MAX_PLAYER_TILES);

    // Bag should have one less tile
    assert_eq!(bag.get_tile_count(), initial_tile_count - 1);
}

#[test]
fn test_remove_and_replenish_multiple_tiles() {
    let mut bag = TileBag::new(2);

    let initial_tile_count = bag.get_tile_count();
    let player_tiles = bag.get_tiles(0);

    // Create placements for first 3 tiles
    let placements: Vec<TilePlacement> = player_tiles
        .chars()
        .take(3)
        .enumerate()
        .map(|(i, tile)| TilePlacement { coords: (0, i), tile })
        .collect();

    bag.remove_and_replenish(0, &placements);

    // Player should still have 7 tiles
    assert_eq!(bag.get_tiles(0).len(), MAX_PLAYER_TILES);

    // Bag should have 3 less tiles
    assert_eq!(bag.get_tile_count(), initial_tile_count - 3);
}

#[test]
fn test_remove_and_replenish_specific_tile() {
    let mut bag = TileBag::new(1);

    let initial_tiles_str = bag.get_tiles(0);
    let initial_tile_count = bag.get_tile_count();

    // Get the first tile
    let tile_to_remove = initial_tiles_str.chars().next().unwrap();

    // Create a placement
    let placements = vec![TilePlacement { coords: (0, 0), tile: tile_to_remove }];

    bag.remove_and_replenish(0, &placements);

    let new_tiles_str = bag.get_tiles(0);

    assert_eq!(new_tiles_str.len(), MAX_PLAYER_TILES);
    assert_eq!(bag.get_tile_count(), initial_tile_count - 1);
}

#[test]
fn test_exchange_tiles() {
    let mut bag = TileBag::new(1);

    let initial_tiles = bag.get_tiles(0);
    let initial_bag_count = bag.get_tile_count();

    // Exchange the first 3 tiles
    let tiles_to_exchange = initial_tiles.chars().take(3).collect::<String>();

    bag.exchange(0, tiles_to_exchange.clone());

    // Player should still have 7 tiles
    assert_eq!(bag.get_tiles(0).len(), MAX_PLAYER_TILES);

    // Bag should still have the same number of tiles
    assert_eq!(bag.get_tile_count(), initial_bag_count);
}

#[test]
fn test_exchange_returns_different_tiles() {
    let mut bag = TileBag::new(1);

    let initial_tiles = bag.get_tiles(0);
    let tiles_to_exchange = initial_tiles.clone();

    bag.exchange(0, tiles_to_exchange.clone());

    let new_tiles = bag.get_tiles(0);

    // This test verifies that exchange actually happens
    assert_eq!(new_tiles.len(), MAX_PLAYER_TILES);
}

#[test]
fn test_get_tile_count_decreases_with_replenish() {
    let mut bag = TileBag::new(1);

    let count_before = bag.get_tile_count();

    let player_tiles = bag.get_tiles(0);
    let placements = vec![TilePlacement { coords: (0, 0), tile: player_tiles.chars().next().unwrap() }];

    bag.remove_and_replenish(0, &placements);

    let count_after = bag.get_tile_count();

    // Count should decrease by 1
    assert_eq!(count_before - count_after, 1);
}

#[test]
fn test_multiple_players_independent() {
    let mut bag = TileBag::new(3);

    let player_0_initial = bag.get_tiles(0);

    // Remove tiles from player 0
    let placements = vec![TilePlacement { coords: (0, 0), tile: player_0_initial.chars().next().unwrap() }];

    bag.remove_and_replenish(0, &placements);

    // Player 1 and 2 should still have the tiles they had before
    assert_eq!(bag.get_tiles(1).len(), MAX_PLAYER_TILES);
    assert_eq!(bag.get_tiles(2).len(), MAX_PLAYER_TILES);
}

#[test]
fn test_tile_count_consistency() {
    let mut bag = TileBag::new(2);

    let initial_bag_count = bag.get_tile_count();
    let initial_player_count = bag.get_tiles(0).len() + bag.get_tiles(1).len();

    // Total tiles should equal initial tiles
    assert_eq!(initial_bag_count + initial_player_count, 100);

    // After a placement and replenish
    let placements = vec![TilePlacement { coords: (0, 0), tile: bag.get_tiles(0).chars().next().unwrap() }];

    bag.remove_and_replenish(0, &placements);

    let final_bag_count = bag.get_tile_count();
    let final_player_count = bag.get_tiles(0).len() + bag.get_tiles(1).len();

    // One tile was placed onto the board. The count should be 99.
    assert_eq!(final_bag_count + final_player_count, 99);
}

#[test]
fn test_remove_and_replenish_near_empty_bag() {
    let mut bag = TileBag::new(4);

    // Manually remove most tiles from the bag for testing
    for _ in 0..bag.get_tile_count() - 2 {
        bag.tiles.pop();
    }

    let remaining_in_bag = bag.get_tile_count();
    let player_tiles = bag.get_tiles(0);

    let placements = vec![TilePlacement { coords: (0, 0), tile: player_tiles.chars().next().unwrap() }];

    bag.remove_and_replenish(0, &placements);

    // Player should still have 7 tiles
    assert_eq!(bag.get_tiles(0).len(), MAX_PLAYER_TILES);

    // Bag should have fewer tiles
    assert!(bag.get_tile_count() < remaining_in_bag);
}

#[test]
fn test_exchange_with_few_tiles_in_bag() {
    let mut bag = TileBag::new(1);

    let tiles_to_exchange = bag.get_tiles(0).chars().take(3).collect::<String>();
    bag.exchange(0, tiles_to_exchange);

    // Player should still have 7 tiles
    assert_eq!(bag.get_tiles(0).len(), MAX_PLAYER_TILES);
}

#[test]
fn dealt_tiles_come_from_the_bag_alphabet() {
    let bag = TileBag::new_with_seed(2, 8);

    let valid_tiles: Vec<char> = vec![
        'E', 'A', 'I', 'O', 'N', 'R', 'T', 'D', 'L', 'S', 'U', 'G', 'B', 'C', 'M', 'P', 'F', 'H', 'V', 'W',
        'Y', '*', 'Q', 'Z', 'J', 'X', 'K',
    ];

    for player in 0..2 {
        let player_tiles = bag.get_tiles(player);
        assert_eq!(player_tiles.chars().count(), 7);
        for tile in player_tiles.chars() {
            assert!(valid_tiles.contains(&tile), "Invalid tile: {}", tile);
        }
    }
}

#[test]
fn test_new_bag_has_all_tiles() {
    let bag = TileBag::new(1);

    // Count all tiles (in bag + with player)
    let mut tile_counts: HashMap<char, usize> = HashMap::new();

    let player_tiles = bag.get_tiles(0);
    for tile in player_tiles.chars() {
        *tile_counts.entry(tile).or_insert(0) += 1;
    }

    // The total tiles in game should be 100
    let total_tiles_with_player = player_tiles.len() + bag.get_tile_count();
    assert_eq!(total_tiles_with_player, 100);
}

#[test]
fn test_wildcard_replenish() {
    let mut bag = TileBag::new(2);

    bag.tiles.clear();
    bag.tiles.extend("ABCDEFGABCDEFG".chars());

    bag.players_tiles[0].clear();
    bag.players_tiles[0].push(WILD); // Give player 0 a wildcard
    let placements = vec![TilePlacement {
        coords: (0, 0),
        tile: 'Z', // Assume player tries to place a 'Z' they don't have
    }];
    bag.remove_and_replenish(0, &placements);

    // Make sure set is replenished.
    assert_eq!(bag.get_tiles(0).len(), MAX_PLAYER_TILES);
    // Make sure wildcard was consumed.
    assert!(!bag.get_tiles(0).contains(WILD));

    bag.players_tiles[0].clear();
    bag.players_tiles[0].push(WILD); // Give player 0 a wildcard
    bag.players_tiles[0].push('A'); // Give player 0 an A

    let placements = vec![TilePlacement {
        coords: (0, 0),
        tile: 'A', // Assume player tries to place a 'A' that they do have
    }];
    bag.remove_and_replenish(0, &placements);

    // Make sure set is replenished.
    assert_eq!(bag.get_tiles(0).len(), MAX_PLAYER_TILES);
    // Make sure A was consumed and not the wildcard.
    assert!(!bag.get_tiles(0).contains('A'));
    assert!(bag.get_tiles(0).contains(WILD));
}

#[test]
fn test_replenish_no_underflow() {
    let mut bag = TileBag::new(2);

    bag.tiles.clear();
    bag.tiles.extend("ABCDEFGABCDEFG".chars());

    bag.players_tiles[0].clear();
    bag.players_tiles[0].push(WILD);
    bag.players_tiles[0].push('A');
    bag.players_tiles[0].push('A');

    let placements = vec![
        TilePlacement { coords: (0, 0), tile: 'A' },
        TilePlacement { coords: (0, 0), tile: 'A' },
        TilePlacement { coords: (0, 0), tile: 'A' },
    ];

    bag.remove_and_replenish(0, &placements);

    // Should be replenished.
    assert_eq!(bag.get_tiles(0).len(), MAX_PLAYER_TILES);
    // And the wildcard consumed.
    assert!(!bag.get_tiles(0).contains(WILD));
}

#[test]
fn seeded_bag_deals_the_same_racks() {
    let a = TileBag::new_with_seed(3, 77);
    let b = TileBag::new_with_seed(3, 77);
    for p in 0..3 {
        assert_eq!(a.get_tiles(p), b.get_tiles(p));
    }
    assert_eq!(a.tiles, b.tiles);
}

#[test]
fn rack_is_sorted() {
    let bag = TileBag::new_with_seed(2, 5);
    let rack: Vec<char> = bag.get_tiles(1).chars().collect();
    let mut sorted = rack.clone();
    sorted.sort();
    assert_eq!(rack, sorted);
}

#[test]
fn exchange_keeps_every_tile_in_play() {
    let mut bag = TileBag::new_with_seed(2, 6);
    let count = |b: &TileBag| -> HashMap<char, usize> {
        let mut m = HashMap::new();
        for c in b.tiles.iter() {
            *m.entry(*c).or_insert(0) += 1;
        }
        for p in 0..2 {
            for c in b.get_tiles(p).chars() {
                *m.entry(c).or_insert(0) += 1;
            }
        }
        m
    };
    let before = count(&bag);
    let rack = bag.get_tiles(0);
    bag.exchange(0, rack);
    assert_eq!(count(&bag), before);
    assert_eq!(bag.exchange_count, 1);
}
