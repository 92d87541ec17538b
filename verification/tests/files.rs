use slasher::results::Results;

#[test]
fn each_type_is_one_file_in_order_of_name() {
    let mut results = Results::default();
    results.add("xmodel", 3, "m".to_owned());
    results.add("image", 0x1f, "Beta".to_owned());
    results.add("image", 0xa, "alpha".to_owned());
    results.add("image", 0x100, "Charlie".to_owned());

    assert_eq!(
        results.files(),
        vec![
            ("image".to_owned(), "a,alpha\n1f,Beta\n100,Charlie\n".to_owned(), 3, 3),
            ("xmodel".to_owned(), "3,m\n".to_owned(), 1, 1),
        ]
    );
}

#[test]
fn a_run_writes_only_what_it_added() {
    let files = vec![
        ("image".to_owned(), vec![(1, "old".to_owned())]),
        ("material".to_owned(), vec![(2, "mc/old".to_owned())]),
    ];
    let mut results = Results::loaded(&files);
    assert_eq!(results.run_files(), Vec::new());

    results.add("image", 5, "new".to_owned());
    results.add("image", 1, "ignored".to_owned());

    assert_eq!(results.run_files(), vec![("image".to_owned(), "5,new\n".to_owned())]);
    assert_eq!(
        results.files(),
        vec![
            ("image".to_owned(), "5,new\n1,old\n".to_owned(), 2, 1),
            ("material".to_owned(), "2,mc/old\n".to_owned(), 1, 0),
        ]
    );
}

#[test]
fn nothing_held_writes_nothing() {
    assert_eq!(Results::default().files(), Vec::new());
    assert_eq!(Results::default().run_files(), Vec::new());
}
