use word_gen::reader::char_windows;
use word_gen::reader::filter_string;
use word_gen::reader::get_alphabet;
use word_gen::reader::get_word_lengths;
use word_gen::reader::remove_preceding_words;

#[test]
fn char_windows_correct_values() {
    let text = "lorem ipsum";
    let windows = char_windows(text, 2);
    let mut it = windows.iter();
    assert_eq!(it.next().unwrap(), "lo");
    assert_eq!(it.next().unwrap(), "or");
    assert_eq!(it.next().unwrap(), "re");
    assert_eq!(it.next().unwrap(), "em");
    assert_eq!(it.next().unwrap(), "m ");
    assert_eq!(it.next().unwrap(), " i");
    assert_eq!(it.next().unwrap(), "ip");
    assert_eq!(it.next().unwrap(), "ps");
    assert_eq!(it.next().unwrap(), "su");
    assert_eq!(it.next().unwrap(), "um");
    assert_eq!(it.next(), None);
}

#[test]
fn filter_string_correct_values() {
    assert_eq!(filter_string("123?a#,!"), "a");
    assert_eq!(filter_string(" multiple  \n  lines  \r  and  \n\n   return "), "multiple lines and return");
}

#[test]
fn filter_string_lowercases() {
    assert_eq!(filter_string("AbC dEf"), "abc def");
    assert_eq!(filter_string(""), "");
}

#[test]
fn get_word_lengths_correct_values() {
    assert_eq!(get_word_lengths("a"), (1, 1, 1));
    assert_eq!(get_word_lengths("a aa aaa"), (1, 2, 3));
    assert_eq!(get_word_lengths("a a a aaaaa"), (1, 2, 5));
    assert_eq!(get_word_lengths("lorem ipsum dolor sit amet consectetur adipiscing elit sed do eiusmod tempor incididunt ut labore et dolore magna aliqua"), (2, 5, 11));
}

#[test]
fn get_alphabet_correct_values() {
    assert_eq!(get_alphabet("ba"), "ab");
    assert_eq!(get_alphabet("baa"), "ab");
    assert_eq!(get_alphabet("  b  a  a   "), "ab");
    assert_eq!(get_alphabet("random text"), "ademnortx");
}

#[test]
fn remove_preceding_words_correct_values() {
    assert_eq!(remove_preceding_words("a"), "a");
    assert_eq!(remove_preceding_words(" a"), " a");
    assert_eq!(remove_preceding_words("a a"), " a");
    assert_eq!(remove_preceding_words(" a a"), " a");
    assert_eq!(remove_preceding_words("a a a"), " a");
    assert_eq!(remove_preceding_words("a "), " ");
    assert_eq!(remove_preceding_words(" a "), " ");
    assert_eq!(remove_preceding_words("ab"), "ab");
    assert_eq!(remove_preceding_words(" ab"), " ab");
}
