use pwgen::{layout_passwords, COLUMNS};

fn strings(items: &[&str]) -> Vec<String> {
    items.iter().map(|s| s.to_string()).collect()
}

#[test]
fn test_print_passwords_columns() {
    let passwords = vec![
        "abc".to_string(),
        "defg".to_string(),
        "hi".to_string(),
        "jklmn".to_string(),
        "op".to_string(),
    ];

    assert_eq!(layout_passwords(&passwords, true), passwords);
    assert_eq!(layout_passwords(&passwords, false), passwords);
}

#[test]
fn layout_twelve_passwords_in_three_rows() {
    let passwords = strings(&[
        "a1", "bb22", "c3", "dddd4", "e5", "f6", "g", "hh", "iii", "jjjj", "k", "ll",
    ]);
    let lines = layout_passwords(&passwords, true);
    assert_eq!(lines, strings(&["a1   dddd4 g   jjjj", "bb22 e5    hh  k   ", "c3   f6    iii ll  "]));
}

#[test]
fn layout_without_columns_is_one_per_line() {
    let passwords = strings(&["a", "bb", "ccc", "dddd", "eeeee", "ffffff", "g"]);
    assert_eq!(layout_passwords(&passwords, false), passwords);
}

#[test]
fn layout_of_nothing_is_nothing() {
    assert_eq!(layout_passwords(&[], true), Vec::<String>::new());
    assert_eq!(layout_passwords(&[], false), Vec::<String>::new());
}

#[test]
fn layout_six_passwords_uses_two_rows() {
    assert_eq!(COLUMNS, 5);
    let passwords = strings(&["one", "two", "three", "four", "five", "six"]);
    let lines = layout_passwords(&passwords, true);
    assert_eq!(lines, strings(&["one three five", "two four  six "]));
}

#[test]
fn layout_last_row_may_be_short() {
    let passwords = strings(&["aa", "b", "c", "dd", "e", "f", "gg"]);
    let lines = layout_passwords(&passwords, true);
    assert_eq!(lines, strings(&["aa c  e gg", "b  dd f"]));
}

#[test]
fn layout_fills_five_columns() {
    let passwords: Vec<String> = (0..15).map(|i| format!("w{}", i)).collect();
    let lines = layout_passwords(&passwords, true);
    assert_eq!(lines, strings(&["w0 w3 w6 w9  w12", "w1 w4 w7 w10 w13", "w2 w5 w8 w11 w14"]));
}

#[test]
fn layout_measures_width_in_bytes_and_pads_by_characters() {
    let passwords = strings(&["\u{e9}", "b", "c", "d", "e", "f"]);
    let lines = layout_passwords(&passwords, true);
    assert_eq!(lines, strings(&["\u{e9}  c e", "b  d f"]));
}
