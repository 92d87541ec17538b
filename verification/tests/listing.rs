use std::collections::HashSet;

use slasher::listing::{add_keys, items_of, names_of, rows_of};
use slasher::results::Results;
use slasher::{hash64, ID_MASK};

#[test]
fn rows_are_read_from_hash_name_lines() {
    let text = "1A,foo\n  2b , bar baz \r\nnot a row\nzz,name\n+3,x\n8000000000000001,big\n,empty key\n";
    let rows = rows_of(text);
    assert_eq!(
        rows,
        vec![
            (0x1a, "foo".to_owned()),
            (0x2b, " bar baz".to_owned()),
            (3, "x".to_owned()),
            (1, "big".to_owned()),
        ]
    );
}

#[test]
fn a_key_too_wide_for_sixty_four_bits_is_no_row() {
    assert_eq!(rows_of("1ffffffffffffffff,too wide\n"), Vec::new());
    assert_eq!(rows_of("ffffffffffffffff,widest"), vec![(ID_MASK, "widest".to_owned())]);
}

#[test]
fn an_empty_file_has_no_rows() {
    assert_eq!(rows_of(""), Vec::new());
    assert_eq!(rows_of("\n\n"), Vec::new());
}

#[test]
fn names_come_from_rows_or_whole_lines() {
    let text = "1a,foo\nplain line\n\n   \nzz,kept whole\n1a ,untrimmed key\n  5,  padded  \n";
    assert_eq!(
        names_of(text),
        vec![
            "foo".to_owned(),
            "plain line".to_owned(),
            "zz,kept whole".to_owned(),
            "1a ,untrimmed key".to_owned(),
            "  padded".to_owned(),
        ]
    );
}

#[test]
fn a_list_is_its_trimmed_lines() {
    assert_eq!(items_of(" a \n\nb\r\n  \nc"), vec!["a".to_owned(), "b".to_owned(), "c".to_owned()]);
    assert_eq!(items_of("last line\r"), vec!["last line".to_owned()]);
}

#[test]
fn a_table_resolves_its_keys_and_the_hashes_of_its_names() {
    let mut known: HashSet<u64> = HashSet::new();
    add_keys("8000000000000005, Foo \nno comma here\nzz,bar\n", &mut known);

    let mut expected: HashSet<u64> = HashSet::new();
    expected.insert(0x8000_0000_0000_0005);
    expected.insert(5);
    for name in ["Foo", "bar"] {
        expected.insert(hash64(name));
        expected.insert(hash64(name) & ID_MASK);
    }
    assert_eq!(known, expected);
}

#[test]
fn what_is_written_reads_back() {
    let mut results = Results::default();
    results.add("image", 0x1f, "Beta".to_owned());
    results.add("image", 0xa, "alpha".to_owned());
    results.add("image", 0x7fff_ffff_ffff_ffff, "x, with a comma".to_owned());
    results.add("xmodel", 3, "m".to_owned());

    for (kind, text, rows, added) in results.files() {
        let read = rows_of(&text);
        assert_eq!(read.len(), rows);
        assert_eq!(added, rows);
        let mut names: Vec<String> = read.iter().map(|(_, name)| name.clone()).collect();
        names.sort();
        let mut held = results.names(&kind);
        held.sort();
        assert_eq!(names, held);
    }

    let reloaded = Results::loaded(
        &results.files().into_iter().map(|(kind, text, _, _)| (kind, rows_of(&text))).collect(),
    );
    assert_eq!(reloaded.len(), results.len());
    assert_eq!(reloaded.ids(), results.ids());
}
