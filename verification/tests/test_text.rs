use jj_core::text::{
    chars_of, contains_text, decimal, found_at, part_of, same_chars, spell_change, spell_commit,
    starts_with,
};

fn text(chars: Vec<char>) -> String {
    chars.into_iter().collect()
}

#[test]
fn commit_ids_are_spelled_least_significant_digit_first() {
    assert_eq!(text(spell_commit(0)), "0000000000000000");
    assert_eq!(text(spell_commit(1)), "1000000000000000");
    assert_eq!(text(spell_commit(10)), "a000000000000000");
    assert_eq!(text(spell_commit(0x1f)), "f100000000000000");
    assert_eq!(text(spell_commit(0x123456789abcdef0)), "0fedcba987654321");
}

#[test]
fn change_ids_are_spelled_with_the_letters_from_z_down_to_k() {
    assert_eq!(text(spell_change(0)), "zzzzzzzzzzzzzzzz");
    assert_eq!(text(spell_change(3)), "wzzzzzzzzzzzzzzz");
    assert_eq!(text(spell_change(15)), "kzzzzzzzzzzzzzzz");
    assert_eq!(text(spell_change(0x10)), "zyzzzzzzzzzzzzzz");
    assert_eq!(text(spell_change(u64::MAX)), "kkkkkkkkkkkkkkkk");
    assert_eq!(text(spell_change(0xfedcba9876543210)), "zyxwvutsrqponmlk");
}

#[test]
fn numbers_are_spelled_in_decimal() {
    assert_eq!(text(decimal(0)), "0");
    assert_eq!(text(decimal(9)), "9");
    assert_eq!(text(decimal(10)), "10");
    assert_eq!(text(decimal(120)), "120");
    assert_eq!(text(decimal(987654321)), "987654321");
}

#[test]
fn text_is_searched_character_by_character() {
    let hay = chars_of("add a file");
    assert_eq!(hay.len(), 10);
    assert!(starts_with(&hay, &chars_of("add")));
    assert!(starts_with(&hay, &chars_of("")));
    assert!(starts_with(&hay, &hay));
    assert!(!starts_with(&hay, &chars_of("dd")));
    assert!(!starts_with(&chars_of("ad"), &chars_of("add")));
    assert!(contains_text(&hay, &chars_of("a f")));
    assert!(contains_text(&hay, &chars_of("file")));
    assert!(contains_text(&hay, &chars_of("")));
    assert!(contains_text(&chars_of(""), &chars_of("")));
    assert!(!contains_text(&hay, &chars_of("files")));
    assert!(!contains_text(&hay, &chars_of("fill")));
    assert!(found_at(&hay, &chars_of("file"), 6));
    assert!(!found_at(&hay, &chars_of("file"), 5));
    assert!(!found_at(&hay, &chars_of("file"), 7));
    assert!(same_chars(&chars_of("é"), &vec!['é']));
    assert!(!same_chars(&chars_of("a"), &chars_of("b")));
    assert!(!same_chars(&chars_of("a"), &chars_of("ab")));
    assert_eq!(text(part_of(&hay, 4, 5)), "a");
    assert_eq!(text(part_of(&hay, 4, 4)), "");
}
