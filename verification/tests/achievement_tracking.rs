use rust_2048::achievements::{AchievementType, Achievements};

#[test]
fn names_descriptions_and_values() {
    assert_eq!(AchievementType::Tile128.get_name(), "合成128");
    assert_eq!(AchievementType::Score20000.get_name(), "达到20000分");
    assert_eq!(AchievementType::Tile2048.get_description(), "首次合成出2048方块");
    assert_eq!(AchievementType::Score1000.get_description(), "累计达到1000分");
    assert_eq!(AchievementType::Tile1024.get_value(), 1024);
    assert_eq!(AchievementType::Score15000.get_value(), 15000);
    assert!(!AchievementType::Tile512.is_score());
    assert!(AchievementType::Score7000.is_score());
}

#[test]
fn ids_round_trip() {
    for (n, a) in Achievements::get_all_achievements().iter().enumerate() {
        assert_eq!(a.id(), n);
        assert_eq!(AchievementType::from_id(n), Some(*a));
    }
    assert_eq!(AchievementType::from_id(12), None);
}

#[test]
fn all_achievements_and_total() {
    let all = Achievements::get_all_achievements();
    assert_eq!(all.len(), Achievements::get_total_count());
    assert_eq!(Achievements::get_total_count(), 12);
    assert_eq!(all[0], AchievementType::Tile128);
    assert_eq!(all[5], AchievementType::Score1000);
    assert_eq!(all[11], AchievementType::Score20000);
}

#[test]
fn new_from_empty_text_has_nothing() {
    let a = Achievements::new("");
    assert_eq!(a.get_unlocked_count(), 0);
    assert!(!a.has_new_achievements());
    for x in Achievements::get_all_achievements() {
        assert!(!a.is_unlocked(x));
    }
}

#[test]
fn new_reads_one_number_per_line() {
    let a = Achievements::new("0\n5\n11");
    assert!(a.is_unlocked(AchievementType::Tile128));
    assert!(a.is_unlocked(AchievementType::Score1000));
    assert!(a.is_unlocked(AchievementType::Score20000));
    assert_eq!(a.get_unlocked_count(), 3);
    assert!(!a.has_new_achievements());
}

#[test]
fn new_reads_lines_as_integers() {
    // A sign, leading zeros and a final carriage return before the newline
    // are accepted; "-0" is zero.
    let a = Achievements::new("+3\r\n007\n-0\n");
    assert!(a.is_unlocked(AchievementType::Tile1024));
    assert!(a.is_unlocked(AchievementType::Score5000));
    assert!(a.is_unlocked(AchievementType::Tile128));
    assert_eq!(a.get_unlocked_count(), 3);
}

#[test]
fn new_skips_lines_that_are_not_achievement_numbers() {
    let a = Achievements::new("12\n-1\nabc\n\n+\n 1\n2 \n99999999999999999999\n4\r");
    assert_eq!(a.get_unlocked_count(), 0);
}

#[test]
fn duplicate_lines_count_once() {
    let a = Achievements::new("1\n1\n1\n");
    assert_eq!(a.get_unlocked_count(), 1);
}

#[test]
fn tile_achievement_unlocks_once() {
    let mut a = Achievements::new("");
    assert!(a.check_tile_achievement(128));
    assert!(a.is_unlocked(AchievementType::Tile128));
    assert!(!a.check_tile_achievement(128));
    assert!(!a.check_tile_achievement(100));
    assert!(!a.check_tile_achievement(4096));
    assert_eq!(a.take_new_achievements(), vec![AchievementType::Tile128]);
    assert!(!a.has_new_achievements());
    assert!(a.take_new_achievements().is_empty());
}

#[test]
fn score_achievement_unlocks_every_reached_score_in_order() {
    let mut a = Achievements::new("6\n");
    assert!(a.check_score_achievement(5000));
    assert!(a.has_new_achievements());
    assert_eq!(
        a.take_new_achievements(),
        vec![AchievementType::Score1000, AchievementType::Score5000]
    );
    assert!(a.is_unlocked(AchievementType::Score3000));
    assert!(!a.is_unlocked(AchievementType::Score7000));
    assert_eq!(a.get_unlocked_count(), 3);
}

#[test]
fn score_check_is_idempotent() {
    let mut a = Achievements::new("");
    assert!(a.check_score_achievement(20000));
    assert_eq!(a.get_unlocked_count(), 7);
    assert!(!a.check_score_achievement(20000));
    assert_eq!(a.take_new_achievements().len(), 7);
}

#[test]
fn low_score_unlocks_nothing() {
    let mut a = Achievements::new("");
    assert!(!a.check_score_achievement(999));
    assert!(!a.check_score_achievement(-5));
    assert_eq!(a.get_unlocked_count(), 0);
}

#[test]
fn save_text_lists_numbers_in_ascending_order() {
    let mut a = Achievements::new("");
    a.check_tile_achievement(2048);
    a.check_score_achievement(15000);
    let text = String::from_utf8(a.save_text()).unwrap();
    assert_eq!(text, "4\n5\n6\n7\n8\n9\n10\n");
}

#[test]
fn saved_text_reads_back_the_same_achievements() {
    let mut a = Achievements::new("");
    a.check_tile_achievement(256);
    a.check_tile_achievement(1024);
    a.check_score_achievement(10000);
    let text = String::from_utf8(a.save_text()).unwrap();
    let b = Achievements::new(&text);
    for x in Achievements::get_all_achievements() {
        assert_eq!(a.is_unlocked(x), b.is_unlocked(x));
    }
    assert_eq!(a.get_unlocked_count(), b.get_unlocked_count());
}

/// The numbers the game's saved text names, read line by line as 32-bit
/// integers by the standard library.
fn numbers_read_by_std(text: &str) -> Vec<bool> {
    let mut found = vec![false; 12];
    for line in text.lines() {
        if let Ok(n) = line.parse::<i32>() {
            if (0..12).contains(&n) {
                found[n as usize] = true;
            }
        }
    }
    found
}

#[test]
fn reading_agrees_with_std_lines_and_integer_parsing() {
    let texts = [
        "",
        "\n",
        "\n\n3",
        "0\r\n1\r\n",
        "2\r",
        "baz\r\n4\n\r\n5",
        "+11\n-11\n-0\n+0\n00000000000000000000000000000000000000009\n",
        "2147483648\n-2147483649\n7\n",
        "1 \n 2\n3\t\n\t4\n",
        "六\n8\n",
        "10\r\r\n11\n",
    ];
    for text in texts {
        let a = Achievements::new(text);
        let expected = numbers_read_by_std(text);
        for (n, x) in Achievements::get_all_achievements().iter().enumerate() {
            assert_eq!(a.is_unlocked(*x), expected[n], "text {:?}, number {}", text, n);
        }
    }
}
