use rusty_library::codec::{decode_books, decode_loans, encode_books, encode_loans, Book, Loan};
use rusty_library::date::{Date, Instant};
use rusty_library::lending::{
    borrow_book, borrow_candidates, confirms, fee_due, lend, loan_age, quote_return,
    return_book, return_candidates, settle,
};
use rusty_library::store::{
    append, create, delete, find_loan, list, position, remove_matching, search, select,
    set_borrowed, Refusal,
};

const CATALOG: &str = "Dune,Frank Herbert,1965,false,2024-01-10\n\
Emma,Jane Austen,1815,true,2020-05-06\n\
Dune Messiah,Frank Herbert,1969,false,2024-01-12\n";

/// 2024-01-30 00:00:00 UTC.
const JAN_30: Instant = Instant { secs: 1706572800, nanos: 0 };

fn catalog() -> Vec<Book> {
    decode_books(CATALOG).unwrap()
}

fn names(books: &Vec<Book>) -> Vec<String> {
    books.iter().map(|b| b.name.clone()).collect()
}

fn loan(borrower: &str, title: &str, day: &str) -> Loan {
    Loan {
        borrower_name: borrower.to_string(),
        book_name: title.to_string(),
        borrow_date: day.to_string(),
    }
}

#[test]
fn listing_twice_gives_the_same_books() {
    let first = list(CATALOG);
    let second = list(CATALOG);
    assert_eq!(first, second);
    assert_eq!(names(&first.unwrap()), vec!["Dune", "Emma", "Dune Messiah"]);
    assert!(list("Dune,x,1,false,never\n").is_err());
}

#[test]
fn search_ignores_case() {
    let books = decode_books("Dune,Frank Herbert,1965,false,2024-01-10\n").unwrap();
    for query in ["dune", "DUNE", "Dune", "dUnE", " un \n"] {
        assert_eq!(search(&books, query).unwrap().len(), 1);
    }
    assert_eq!(search(&books, "dunes").unwrap().len(), 0);
    assert_eq!(names(&search(&catalog(), "dune").unwrap()), vec!["Dune", "Dune Messiah"]);
    assert_eq!(names(&search(&catalog(), "M").unwrap()), vec!["Emma", "Dune Messiah"]);
}

#[test]
fn search_uses_full_upper_case() {
    let books = decode_books("Die Straße,Someone,2001,false,2024-01-10\n").unwrap();
    assert_eq!(search(&books, "strasse").unwrap().len(), 1);
}

#[test]
fn a_blank_search_is_refused() {
    assert_eq!(search(&catalog(), ""), Err(Refusal::EmptyQuery));
    assert_eq!(search(&catalog(), " \t\n"), Err(Refusal::EmptyQuery));
}

#[test]
fn select_narrows_by_flag() {
    assert_eq!(names(&select(&catalog(), "e", None)), vec!["Dune", "Emma", "Dune Messiah"]);
    assert_eq!(names(&select(&catalog(), "e", Some(true))), vec!["Emma"]);
    assert_eq!(names(&select(&catalog(), "e", Some(false))), vec!["Dune", "Dune Messiah"]);
}

#[test]
fn create_appends() {
    let mut books = catalog();
    let extra = Book {
        name: "Ulysses".to_string(),
        author: "James Joyce".to_string(),
        year_published: 1922,
        borrowed: false,
        issue_date: Date::new(2024, 3, 1).unwrap(),
    };
    create(&mut books, extra.clone());
    assert_eq!(books.len(), 4);
    assert_eq!(books[3], extra);
    assert_eq!(names(&books), vec!["Dune", "Emma", "Dune Messiah", "Ulysses"]);
}

#[test]
fn deleting_the_middle_book_keeps_the_outer_two() {
    let mut books = catalog();
    let before = catalog();
    assert_eq!(delete(&mut books, 1), Ok(()));
    assert_eq!(books, vec![before[0].clone(), before[2].clone()]);
}

#[test]
fn deleting_beyond_the_catalog_is_refused() {
    let mut books = catalog();
    assert_eq!(delete(&mut books, 3), Err(Refusal::OutOfRange));
    assert_eq!(books, catalog());
    let mut none: Vec<Book> = vec![];
    assert_eq!(delete(&mut none, 0), Err(Refusal::OutOfRange));
}

#[test]
fn only_the_first_book_of_a_name_is_flagged() {
    let text = "Emma,A,1,false,2020-01-01\nDune,B,2,false,2020-01-02\nDune,C,3,false,2020-01-03\n";
    let mut books = decode_books(text).unwrap();
    assert_eq!(position(&books, "Dune"), Some(1));
    assert_eq!(position(&books, "dune"), None);
    assert!(set_borrowed(&mut books, "Dune", true));
    assert_eq!(
        encode_books(&books),
        "Emma,A,1,false,2020-01-01\nDune,B,2,true,2020-01-02\nDune,C,3,false,2020-01-03\n"
    );
    assert!(!set_borrowed(&mut books, "Nothing", true));
    assert!(set_borrowed(&mut books, "Dune", false));
    assert_eq!(encode_books(&books), text);
}

#[test]
fn every_matching_loan_is_removed() {
    let mut ledger = decode_loans("Bob,Dune,2024-01-11\nAnn,Dune,2024-01-12\nBOB,Dune,2024-01-13\nbob,Emma,2024-01-14\n");
    assert_eq!(find_loan(&ledger, " bob ", "Dune"), Some(0));
    assert_eq!(find_loan(&ledger, "ann", "Dune"), Some(1));
    assert_eq!(find_loan(&ledger, "ann", "dune"), None);
    assert!(remove_matching(&mut ledger, " bob ", "Dune"));
    assert_eq!(encode_loans(&ledger), "Ann,Dune,2024-01-12\nbob,Emma,2024-01-14\n");
    assert!(!remove_matching(&mut ledger, "bob", "Dune"));
    assert_eq!(encode_loans(&ledger), "Ann,Dune,2024-01-12\nbob,Emma,2024-01-14\n");
}

#[test]
fn append_adds_a_loan_at_the_end() {
    let mut ledger = decode_loans("Ann,Dune,2024-01-12\n");
    append(&mut ledger, loan("Bob", "Emma", "2024-02-01"));
    assert_eq!(encode_loans(&ledger), "Ann,Dune,2024-01-12\nBob,Emma,2024-02-01\n");
}

#[test]
fn borrowing_records_the_loan_and_flags_the_book() {
    let mut books = decode_books("Dune,Frank Herbert,1965,false,2024-01-10\n").unwrap();
    let mut ledger: Vec<Loan> = vec![];
    assert_eq!(search(&books, "dune").unwrap().len(), 1);
    assert_eq!(borrow_book(&mut books, &mut ledger, "dune", 0, "Bob\n", "2024-01-11\n"), Ok(()));
    assert_eq!(encode_loans(&ledger), "Bob,Dune,2024-01-11\n");
    assert_eq!(encode_books(&books), "Dune,Frank Herbert,1965,true,2024-01-10\n");
}

#[test]
fn a_borrowed_book_is_no_candidate() {
    let mut books = catalog();
    let mut ledger: Vec<Loan> = vec![];
    assert!(select(&books, "", Some(false)).iter().all(|b| !b.borrowed));
    assert_eq!(
        borrow_book(&mut books, &mut ledger, "emma", 0, "Bob", "2024-01-11"),
        Err(Refusal::NotAvailable)
    );
    assert_eq!(borrow_book(&mut books, &mut ledger, "dune", 0, "Bob", "2024-01-11"), Ok(()));
    assert_eq!(names(&select(&books, "dune", Some(false))), vec!["Dune Messiah"]);
    assert_eq!(borrow_book(&mut books, &mut ledger, "dune", 0, "Ann", "2024-01-12"), Ok(()));
    assert_eq!(encode_loans(&ledger), "Bob,Dune,2024-01-11\nAnn,Dune Messiah,2024-01-12\n");
    assert_eq!(
        borrow_book(&mut books, &mut ledger, "dune", 0, "Cy", "2024-01-13"),
        Err(Refusal::NotAvailable)
    );
}

#[test]
fn the_position_chosen_is_one_of_the_list_shown() {
    let mut books = catalog();
    let mut ledger: Vec<Loan> = vec![];
    assert_eq!(borrow_book(&mut books, &mut ledger, "dune", 1, "Bob", "2024-01-11"), Ok(()));
    assert_eq!(encode_loans(&ledger), "Bob,Dune Messiah,2024-01-11\n");
    assert!(books[2].borrowed);
    assert!(!books[0].borrowed);
    assert_eq!(
        borrow_book(&mut books, &mut ledger, "dune", 1, "Bob", "2024-01-11"),
        Err(Refusal::OutOfRange)
    );
    assert_eq!(
        borrow_book(&mut books, &mut ledger, "  ", 0, "Bob", "2024-01-11"),
        Err(Refusal::EmptyQuery)
    );
    assert_eq!(ledger.len(), 1);
}

#[test]
fn borrowing_and_returning_restores_the_stores() {
    let mut books = catalog();
    let mut ledger = decode_loans("Ann,Emma,2020-05-07\n");
    let now = Instant { secs: 1704931200, nanos: 0 };
    assert_eq!(borrow_book(&mut books, &mut ledger, "dune", 0, "Bob", "2024-01-10"), Ok(()));
    assert!(books[0].borrowed);
    assert_eq!(ledger.len(), 2);
    assert_eq!(return_book(&mut books, &mut ledger, "dune", 0, "bob", now, ""), Ok(None));
    assert_eq!(books, catalog());
    assert_eq!(books.len(), 3);
    assert!(!books[0].borrowed);
    assert_eq!(encode_loans(&ledger), "Ann,Emma,2020-05-07\n");
}

#[test]
fn lend_flags_the_first_book_of_the_name() {
    let mut books = catalog();
    let mut ledger: Vec<Loan> = vec![];
    lend(&mut books, &mut ledger, "Dune Messiah", " Bob ", " 2024-01-11 ");
    assert_eq!(ledger, vec![loan("Bob", "Dune Messiah", "2024-01-11")]);
    assert!(books[2].borrowed);
}

#[test]
fn the_fee_is_fifty_hundredths_a_day_after_fourteen_days() {
    assert_eq!(fee_due(-20), Some(1000));
    assert_eq!(fee_due(-15), Some(750));
    assert_eq!(fee_due(-14), None);
    assert_eq!(fee_due(0), None);
    assert_eq!(fee_due(30), None);
    assert_eq!(fee_due(i64::MIN), Some(9223372036854775808u128 * 50));
    assert_eq!(fee_due(-20).map(|cents| cents as f64 / 100.0), Some(10.00));
}

#[test]
fn only_the_word_done_confirms() {
    assert!(confirms("done"));
    assert!(confirms("done\n"));
    assert!(confirms("  done "));
    assert!(!confirms("Done"));
    assert!(!confirms("done."));
    assert!(!confirms(""));
    assert!(!confirms("dono"));
}

#[test]
fn loan_age_counts_whole_days_back_from_now() {
    assert_eq!(loan_age("2024-01-10", JAN_30), Some(-20));
    assert_eq!(loan_age(" 2024-01-10\n", JAN_30), Some(-20));
    assert_eq!(loan_age("2024-01-10", Instant { secs: 1706572800 + 43200, nanos: 5 }), Some(-20));
    assert_eq!(loan_age("2024-01-10", Instant { secs: 1706572800 - 1, nanos: 0 }), Some(-19));
    assert_eq!(loan_age("2024-01-30", JAN_30), Some(0));
    assert_eq!(loan_age("2024-02-09", JAN_30), Some(10));
    assert_eq!(loan_age("whenever", JAN_30), None);
    assert_eq!(loan_age("", JAN_30), None);
    assert_eq!(loan_age("2024-01-10", Instant { secs: i64::MAX, nanos: 0 }), None);
}

#[test]
fn a_late_return_needs_the_payment_confirmed() {
    let text = "Dune,Frank Herbert,1965,true,2024-01-10\n";
    let loans = "Bob,Dune,2024-01-10\n";
    let mut books = decode_books(text).unwrap();
    let mut ledger = decode_loans(loans);
    for word in ["", "yes", "Done", "done!"] {
        assert_eq!(
            return_book(&mut books, &mut ledger, "dune", 0, "Bob", JAN_30, word),
            Err(Refusal::NotConfirmed)
        );
        assert_eq!(encode_books(&books), text);
        assert_eq!(encode_loans(&ledger), loans);
    }
    assert_eq!(
        return_book(&mut books, &mut ledger, "dune", 0, "Bob", JAN_30, "done\n"),
        Ok(Some(1000))
    );
    assert_eq!(encode_books(&books), "Dune,Frank Herbert,1965,false,2024-01-10\n");
    assert_eq!(encode_loans(&ledger), "");
}

#[test]
fn a_return_in_time_needs_no_confirmation() {
    let mut books = decode_books("Dune,Frank Herbert,1965,true,2024-01-10\n").unwrap();
    let mut ledger = decode_loans("Ann,Dune,2024-01-01\nBob,Dune,2024-01-16\nbob,Dune,2024-01-20\n");
    assert_eq!(return_book(&mut books, &mut ledger, "DUNE", 0, "BOB", JAN_30, ""), Ok(None));
    assert_eq!(encode_loans(&ledger), "Ann,Dune,2024-01-01\n");
    assert!(!books[0].borrowed);
}

#[test]
fn a_return_is_refused_without_book_or_loan() {
    let mut books = catalog();
    let mut ledger = decode_loans("Bob,Emma,whenever\nAnn,Dune,2024-01-11\n");
    assert_eq!(
        return_book(&mut books, &mut ledger, "dune", 0, "Ann", JAN_30, "done"),
        Err(Refusal::NotFound)
    );
    assert_eq!(
        return_book(&mut books, &mut ledger, "emma", 1, "Bob", JAN_30, "done"),
        Err(Refusal::OutOfRange)
    );
    assert_eq!(
        return_book(&mut books, &mut ledger, "emma", 0, "Ann", JAN_30, "done"),
        Err(Refusal::NoSuchLoan)
    );
    assert_eq!(
        return_book(&mut books, &mut ledger, "emma", 0, "Bob", JAN_30, "done"),
        Err(Refusal::LoanDate)
    );
    assert_eq!(books, catalog());
    assert_eq!(encode_loans(&ledger), "Bob,Emma,whenever\nAnn,Dune,2024-01-11\n");
}

#[test]
fn settling_takes_the_book_back_or_changes_nothing() {
    let mut books = catalog();
    let mut ledger = decode_loans("Bob,Emma,2020-05-07\n");
    assert_eq!(
        settle(&mut books, &mut ledger, "Emma", "Bob", -15, "later"),
        Err(Refusal::NotConfirmed)
    );
    assert_eq!(books, catalog());
    assert_eq!(ledger.len(), 1);
    assert_eq!(settle(&mut books, &mut ledger, "Emma", "Bob", -15, "done"), Ok(Some(750)));
    assert!(!books[1].borrowed);
    assert!(ledger.is_empty());
}

#[test]
fn candidates_are_told_apart_by_the_flag() {
    let books = catalog();
    assert_eq!(names(&borrow_candidates(&books, "E")), vec!["Dune", "Dune Messiah"]);
    assert_eq!(names(&return_candidates(&books, "E")), vec!["Emma"]);
    assert!(borrow_candidates(&books, "").iter().all(|b| !b.borrowed));
    assert!(return_candidates(&books, "").iter().all(|b| b.borrowed));
    assert!(borrow_candidates(&books, "emma").is_empty());
}

#[test]
fn a_quote_names_the_book_and_the_days() {
    let books = catalog();
    let ledger = decode_loans("Ann,Emma,2024-01-29\nBob,Emma,2024-01-10\nBob,Emma,2024-01-20\n");
    assert_eq!(
        quote_return(&books, &ledger, "mm", 0, "bob", JAN_30),
        Ok(("Emma".to_string(), -20))
    );
    assert_eq!(
        quote_return(&books, &ledger, "mm", 0, "ANN ", JAN_30),
        Ok(("Emma".to_string(), -1))
    );
    assert_eq!(quote_return(&books, &ledger, "mm", 0, "Cy", JAN_30), Err(Refusal::NoSuchLoan));
    assert_eq!(quote_return(&books, &ledger, "mm", 1, "bob", JAN_30), Err(Refusal::OutOfRange));
    assert_eq!(quote_return(&books, &ledger, "dune", 0, "bob", JAN_30), Err(Refusal::NotFound));
}

#[test]
fn with_two_books_of_a_name_the_first_is_flagged() {
    let text = "Dune,A,1,true,2020-01-01\nDune,B,2,false,2020-01-02\n";
    let mut books = decode_books(text).unwrap();
    let mut ledger: Vec<Loan> = vec![];
    assert_eq!(borrow_candidates(&books, "dune").len(), 1);
    assert_eq!(borrow_book(&mut books, &mut ledger, "dune", 0, "Bob", "2024-01-20"), Ok(()));
    assert_eq!(encode_books(&books), text);
    assert_eq!(encode_loans(&ledger), "Bob,Dune,2024-01-20\n");
    assert_eq!(return_book(&mut books, &mut ledger, "dune", 0, "Bob", JAN_30, ""), Ok(None));
    assert_eq!(encode_books(&books), "Dune,A,1,false,2020-01-01\nDune,B,2,false,2020-01-02\n");
    assert!(ledger.is_empty());
}
