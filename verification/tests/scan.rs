use build_bridge::scan::{field_column, split};

fn on(list: &[&str]) -> Vec<String> {
    list.iter().map(|s| s.to_string()).collect()
}

#[test]
fn split_cuts_at_every_separator() {
    assert_eq!(split("a b c", ' '), on(&["a", "b", "c"]));
    assert_eq!(split("abc", ' '), on(&["abc"]));
    assert_eq!(split("", ' '), on(&[""]));
    assert_eq!(split(" ", ' '), on(&["", ""]));
    assert_eq!(split("a  b", ' '), on(&["a", "", "b"]));
    assert_eq!(split(" a ", ' '), on(&["", "a", ""]));
    assert_eq!(split("one\ntwo\n", '\n'), on(&["one", "two", ""]));
}

#[test]
fn split_counts_characters_not_bytes() {
    assert_eq!(split("é\tü\t日本", '\t'), on(&["é", "ü", "日本"]));
    assert_eq!(split("aéb", 'é'), on(&["a", "b"]));
}

#[test]
fn split_agrees_with_the_standard_split() {
    for text in ["", "a", ",", ",,", "a,b", ",a,,b,", "日,本"].iter() {
        let expected: Vec<String> = text.split(',').map(|s| s.to_string()).collect();
        assert_eq!(split(text, ','), expected);
    }
}

#[test]
fn column_counts_from_one() {
    let fields = on(&["artifact", "executable", "é", "cli"]);
    assert_eq!(field_column(&fields, 0), 1);
    assert_eq!(field_column(&fields, 1), 10);
    assert_eq!(field_column(&fields, 2), 21);
    assert_eq!(field_column(&fields, 3), 23);
    assert_eq!(field_column(&fields, 4), 27);
    assert_eq!(field_column(&fields, 5), 27);
    assert_eq!(field_column(&Vec::new(), 0), 1);
}
