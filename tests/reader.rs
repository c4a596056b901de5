use my_rust_eval::reader::{string_reader, Reader, StringReader};

fn char_vec_of_string(s: &str) -> Vec<char> {
    let mut reader = string_reader(s);
    let mut out = Vec::new();
    while let Some(c) = reader.next_char() {
        out.push(c);
    }
    out
}

#[test]
fn reader_impl_string_reader_bobink() {
    let actual = char_vec_of_string("bobink");
    assert_eq!(vec!['b', 'o', 'b', 'i', 'n', 'k'], actual);
}

#[test]
fn reader_impl_string_reader_empty_string() {
    let actual = char_vec_of_string("");
    let expected: Vec<char> = vec![];
    assert_eq!(expected, actual);
}

#[test]
fn reader_stays_exhausted() {
    let mut reader = StringReader::new("é");
    assert_eq!(Some('é'), reader.next_char());
    assert_eq!(None, reader.next_char());
    assert_eq!(None, reader.next_char());
}

fn char_vec_of_reader(mut reader: StringReader) -> Vec<char> {
    let mut out = Vec::new();
    while let Some(c) = reader.next_char() {
        out.push(c);
    }
    out
}

#[test]
fn string_reader_bobink() {
    let actual = char_vec_of_reader(StringReader::new("bobink"));
    assert_eq!(vec!['b', 'o', 'b', 'i', 'n', 'k'], actual);
}

#[test]
fn string_reader_empty_string() {
    let actual = char_vec_of_reader(StringReader::new(""));
    let expected: Vec<char> = vec![];
    assert_eq!(expected, actual);
}
