use hvci_blocklist::blocklist::{
    contains_ignore_case, list_or_empty, plan_update, sort_names, BlocklistUpdate,
};
use hvci_blocklist::may_proceed;
use hvci_blocklist::order::{eq_ignore_ascii_case, name_le};

#[test]
fn elevation_gate_admits_only_a_confirmed_elevated_token() {
    assert!(may_proceed(Some(true)));
    assert!(!may_proceed(Some(false)));
    assert!(!may_proceed(None));
}

#[test]
fn equality_ignores_ascii_case() {
    assert!(eq_ignore_ascii_case("Driver.SYS", "dRIVER.sys"));
    assert!(eq_ignore_ascii_case("", ""));
    assert!(!eq_ignore_ascii_case("a.sys", "b.sys"));
    assert!(!eq_ignore_ascii_case("a.sys", "a.sy"));
}

#[test]
fn equality_does_not_fold_beyond_ascii() {
    assert!(!eq_ignore_ascii_case("Ä.sys", "ä.sys"));
}

#[test]
fn order_is_case_sensitive_and_lexicographic() {
    assert!(name_le("A.sys", "a.sys"));
    assert!(!name_le("a.sys", "A.sys"));
    assert!(name_le("abc", "abd"));
    assert!(!name_le("abd", "abc"));
    assert!(name_le("ab", "abc"));
    assert!(!name_le("abc", "ab"));
    assert!(name_le("b.sys", "b.sys"));
    assert!(name_le("", "a"));
}

#[test]
fn membership_is_case_insensitive() {
    let list = vec![String::from("A.sys"), String::from("c.sys")];
    assert!(contains_ignore_case(&list, "a.SYS"));
    assert!(contains_ignore_case(&list, "c.sys"));
    assert!(!contains_ignore_case(&list, "b.sys"));
    let empty: Vec<String> = Vec::new();
    assert!(!contains_ignore_case(&empty, "a.sys"));
}

#[test]
fn absent_value_reads_as_empty_list() {
    let stored = vec![String::from("x.sys")];
    assert_eq!(list_or_empty(Some(stored.clone())), stored);
    assert_eq!(list_or_empty(None), Vec::<String>::new());
}

#[test]
fn sorting_keeps_every_entry() {
    let list = vec![
        String::from("c.sys"),
        String::from("a.sys"),
        String::from("b.sys"),
        String::from("a.sys"),
    ];
    let sorted = sort_names(list);
    assert_eq!(
        sorted,
        vec![
            String::from("a.sys"),
            String::from("a.sys"),
            String::from("b.sys"),
            String::from("c.sys"),
        ]
    );
}

#[test]
fn new_name_is_inserted_in_sorted_position() {
    let list = vec![String::from("A.sys"), String::from("c.sys")];
    match plan_update(list, String::from("b.sys")) {
        BlocklistUpdate::Updated(v) => {
            assert_eq!(
                v,
                vec![
                    String::from("A.sys"),
                    String::from("b.sys"),
                    String::from("c.sys"),
                ]
            );
        }
        BlocklistUpdate::AlreadyListed => panic!("expected an update"),
    }
}

#[test]
fn case_insensitive_duplicate_is_not_written() {
    let list = vec![String::from("B.sys")];
    match plan_update(list, String::from("b.sys")) {
        BlocklistUpdate::AlreadyListed => {}
        BlocklistUpdate::Updated(_) => panic!("expected no update"),
    }
}

#[test]
fn exact_duplicate_is_not_written() {
    let list = vec![String::from("b.sys")];
    match plan_update(list, String::from("b.sys")) {
        BlocklistUpdate::AlreadyListed => {}
        BlocklistUpdate::Updated(_) => panic!("expected no update"),
    }
}

#[test]
fn first_run_creates_a_one_entry_list() {
    match plan_update(Vec::new(), String::from("driver.sys")) {
        BlocklistUpdate::Updated(v) => {
            assert_eq!(v, vec![String::from("driver.sys")]);
        }
        BlocklistUpdate::AlreadyListed => panic!("expected an update"),
    }
}

#[test]
fn unsorted_existing_entries_come_out_sorted() {
    let list = vec![String::from("z.sys"), String::from("m.sys")];
    match plan_update(list, String::from("a.sys")) {
        BlocklistUpdate::Updated(v) => {
            assert_eq!(
                v,
                vec![
                    String::from("a.sys"),
                    String::from("m.sys"),
                    String::from("z.sys"),
                ]
            );
        }
        BlocklistUpdate::AlreadyListed => panic!("expected an update"),
    }
}

#[test]
fn uppercase_sorts_before_lowercase() {
    let list = vec![String::from("a.sys")];
    match plan_update(list, String::from("B.sys")) {
        BlocklistUpdate::Updated(v) => {
            assert_eq!(v, vec![String::from("B.sys"), String::from("a.sys")]);
        }
        BlocklistUpdate::AlreadyListed => panic!("expected an update"),
    }
}
