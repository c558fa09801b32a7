//! The catalog, an ordered sequence of books, and the ledger of loans:
//! searching by name, and the changes that keep their order.

use vstd::prelude::*;
use crate::codec::{
    Book, BookView, Loan, LoanView, DecodeError, book_views, loan_views, decode_books,
    decoded_books, books_result_view, all_well_formed, all_trimmed,
};
use crate::text::{
    chars_of, string_of, trim, trim_chars, to_upper, uppercase, occurs, occurs_in, is_blank,
};

verus! {

/// Why a change to the catalog or the ledger was refused. A refusal leaves
/// both as they were.
#[derive(Clone, Copy, Debug, PartialEq, Eq, Structural)]
pub enum Refusal {
    /// The search text is blank.
    EmptyQuery,
    /// The position chosen is not in the list it was chosen from.
    OutOfRange,
    /// A fee is due and its payment was not confirmed.
    NotConfirmed,
    /// No book that can be borrowed matches the search.
    NotAvailable,
    /// No borrowed book matches the search.
    NotFound,
    /// The ledger holds no loan of the book to the borrower.
    NoSuchLoan,
    /// The date of the loan cannot be read.
    LoanDate,
}

/// A name matches a query when the trimmed query occurs in it, both taken in
/// upper case.
pub open spec fn name_matches(name: Seq<char>, query: Seq<char>) -> bool {
    occurs_in(uppercase(trim(query)), uppercase(name))
}

/// Whether a search for `query` shows the book. `status` narrows the search to
/// books that are borrowed, or to books that are not.
pub open spec fn wanted(b: BookView, query: Seq<char>, status: Option<bool>) -> bool {
    name_matches(b.name, query) && (status is None || status == Some(b.borrowed))
}

/// The books that a search shows, in catalog order.
pub open spec fn selected(books: Seq<BookView>, query: Seq<char>, status: Option<bool>) -> Seq<
    BookView,
>
    decreases books.len(),
{
    if books.len() == 0 {
        Seq::empty()
    } else if wanted(books.last(), query, status) {
        selected(books.drop_last(), query, status).push(books.last())
    } else {
        selected(books.drop_last(), query, status)
    }
}

/// The position of the first book called `name`, or the length of the
/// catalog if there is none.
pub open spec fn first_named(books: Seq<BookView>, name: Seq<char>) -> int
    decreases books.len(),
{
    if books.len() == 0 || books[0].name == name {
        0
    } else {
        1 + first_named(books.drop_first(), name)
    }
}

/// The catalog with the flag of the first book called `name` set to `value`;
/// the catalog itself if no book is called so.
pub open spec fn with_flag(books: Seq<BookView>, name: Seq<char>, value: bool) -> Seq<BookView> {
    let i = first_named(books, name);
    if 0 <= i < books.len() {
        books.update(i, BookView { borrowed: value, ..books[i] })
    } else {
        books
    }
}

/// A loan is the borrower's loan of the book when the borrower's name is the
/// same in upper case and the book's name is the same.
pub open spec fn loan_matches(l: LoanView, borrower: Seq<char>, book_name: Seq<char>) -> bool {
    uppercase(l.borrower_name) == uppercase(trim(borrower)) && l.book_name == book_name
}

/// The ledger without the borrower's loans of the book, the others in order.
pub open spec fn without_matching(
    loans: Seq<LoanView>,
    borrower: Seq<char>,
    book_name: Seq<char>,
) -> Seq<LoanView>
    decreases loans.len(),
{
    if loans.len() == 0 {
        Seq::empty()
    } else if loan_matches(loans.last(), borrower, book_name) {
        without_matching(loans.drop_last(), borrower, book_name)
    } else {
        without_matching(loans.drop_last(), borrower, book_name).push(loans.last())
    }
}

/// The position of the borrower's first loan of the book, or the length of
/// the ledger if there is none.
pub open spec fn first_loan(loans: Seq<LoanView>, borrower: Seq<char>, book_name: Seq<char>) -> int
    decreases loans.len(),
{
    if loans.len() == 0 || loan_matches(loans[0], borrower, book_name) {
        0
    } else {
        1 + first_loan(loans.drop_first(), borrower, book_name)
    }
}

/// Some loan of the ledger is the borrower's loan of the book.
pub open spec fn has_match(loans: Seq<LoanView>, borrower: Seq<char>, book_name: Seq<char>) -> bool {
    exists|i: int| 0 <= i < loans.len() && loan_matches(#[trigger] loans[i], borrower, book_name)
}

/// The first book called `name` is at `k` when the book there has the name,
/// or the catalog ends there, and no earlier book has it.
pub proof fn lemma_first_named(books: Seq<BookView>, name: Seq<char>, k: int)
    requires
        0 <= k <= books.len(),
        forall|j: int| 0 <= j < k ==> (#[trigger] books[j]).name != name,
        k == books.len() || books[k].name == name,
    ensures
        first_named(books, name) == k,
    decreases k,
{
    if k > 0 {
        lemma_first_named(books.drop_first(), name, k - 1);
    }
}

/// The borrower's first loan of the book is at `k` when the loan there is
/// one, or the ledger ends there, and no earlier loan is one.
pub proof fn lemma_first_loan(
    loans: Seq<LoanView>,
    borrower: Seq<char>,
    book_name: Seq<char>,
    k: int,
)
    requires
        0 <= k <= loans.len(),
        forall|j: int| 0 <= j < k ==> !loan_matches(#[trigger] loans[j], borrower, book_name),
        k == loans.len() || loan_matches(loans[k], borrower, book_name),
    ensures
        first_loan(loans, borrower, book_name) == k,
    decreases k,
{
    if k > 0 {
        lemma_first_loan(loans.drop_first(), borrower, book_name, k - 1);
    }
}

/// The first book of a given name is where `first_named` says, and no
/// earlier book has the name.
pub proof fn lemma_first_named_is_first(books: Seq<BookView>, name: Seq<char>)
    ensures
        0 <= first_named(books, name) <= books.len(),
        first_named(books, name) < books.len() ==> books[first_named(books, name)].name == name,
        forall|j: int| 0 <= j < first_named(books, name) ==> (#[trigger] books[j]).name != name,
    decreases books.len(),
{
    if books.len() == 0 || books[0].name == name {
    } else {
        let rest = books.drop_first();
        lemma_first_named_is_first(rest, name);
        assert forall|j: int| 0 <= j < first_named(books, name) implies (#[trigger] books[j]).name
            != name by {
            if j > 0 {
                assert(books[j] == rest[j - 1]);
            }
        }
    }
}

/// Removing matching loans leaves none, keeps a ledger without any as it is,
/// and shortens every other ledger.
pub proof fn lemma_without_matching(loans: Seq<LoanView>, borrower: Seq<char>, book_name: Seq<char>)
    ensures
        !has_match(without_matching(loans, borrower, book_name), borrower, book_name),
        without_matching(loans, borrower, book_name).len() <= loans.len(),
        !has_match(loans, borrower, book_name) ==> without_matching(loans, borrower, book_name)
            == loans,
        has_match(loans, borrower, book_name) ==> without_matching(loans, borrower, book_name).len()
            < loans.len(),
    decreases loans.len(),
{
    if loans.len() > 0 {
        let front = loans.drop_last();
        lemma_without_matching(front, borrower, book_name);
        let kept = without_matching(front, borrower, book_name);
        if loan_matches(loans.last(), borrower, book_name) {
            assert(has_match(loans, borrower, book_name)) by {
                assert(loan_matches(loans[loans.len() - 1], borrower, book_name));
            }
        } else {
            let out = kept.push(loans.last());
            assert(!has_match(out, borrower, book_name)) by {
                if has_match(out, borrower, book_name) {
                    let i = choose|i: int|
                        0 <= i < out.len() && loan_matches(#[trigger] out[i], borrower, book_name);
                    if i < kept.len() {
                        assert(loan_matches(kept[i], borrower, book_name));
                    }
                }
            }
            if has_match(loans, borrower, book_name) {
                let i = choose|i: int|
                    0 <= i < loans.len() && loan_matches(#[trigger] loans[i], borrower, book_name);
                assert(loan_matches(front[i], borrower, book_name));
            } else {
                assert(!has_match(front, borrower, book_name)) by {
                    if has_match(front, borrower, book_name) {
                        let i = choose|i: int|
                            0 <= i < front.len() && loan_matches(
                                #[trigger] front[i],
                                borrower,
                                book_name,
                            );
                        assert(loan_matches(loans[i], borrower, book_name));
                    }
                }
                assert(out =~= loans);
            }
        }
    }
}

/// The books of a catalog text, in storage order.
pub fn list(text: &str) -> (r: Result<Vec<Book>, DecodeError>)
    ensures
        books_result_view(r) == decoded_books(text@),
        r is Ok ==> all_well_formed(book_views(r->Ok_0@)),
        r is Ok ==> all_trimmed(book_views(r->Ok_0@)),
{
    decode_books(text)
}

/// A listing depends on the text alone: two listings of one text hold the
/// same books in the same order, or fail alike.
pub proof fn lemma_list_repeats(
    text: Seq<char>,
    first: Result<Vec<Book>, DecodeError>,
    second: Result<Vec<Book>, DecodeError>,
)
    requires
        books_result_view(first) == decoded_books(text),
        books_result_view(second) == decoded_books(text),
    ensures
        books_result_view(first) == books_result_view(second),
{
}

/// The upper-case form of a text, as characters.
fn upper_chars(v: &Vec<char>) -> (out: Vec<char>)
    ensures
        out@ == uppercase(v@),
{
    chars_of(to_upper(string_of(v).as_str()).as_str())
}

/// The books that a search for `query` shows, in catalog order: those whose
/// name matches and, where `status` is given, whose flag is `status`.
pub fn select(catalog: &Vec<Book>, query: &str, status: Option<bool>) -> (found: Vec<Book>)
    ensures
        book_views(found@) == selected(book_views(catalog@), query@, status),
        forall|i: int|
            0 <= i < found.len() ==> wanted((#[trigger] found[i])@, query@, status),
{
    let needle = upper_chars(&trim_chars(&chars_of(query)));
    let mut found: Vec<Book> = Vec::new();
    let mut i: usize = 0;
    while i < catalog.len()
        invariant
            i <= catalog.len(),
            needle@ == uppercase(trim(query@)),
            book_views(found@) == selected(book_views(catalog@).take(i as int), query@, status),
            forall|k: int|
                0 <= k < found.len() ==> wanted((#[trigger] found[k])@, query@, status),
        decreases catalog.len() - i,
    {
        let ghost all = book_views(catalog@);
        assert(all.take(i + 1).drop_last() =~= all.take(i as int));
        let book = &catalog[i];
        let shown = match status {
            None => true,
            Some(flag) => book.borrowed == flag,
        };
        if shown && occurs(&needle, &upper_chars(&chars_of(book.name.as_str()))) {
            let copy = book.clone();
            found.push(copy);
        }
        i += 1;
    }
    assert(book_views(catalog@).take(catalog.len() as int) =~= book_views(catalog@));
    found
}

/// The books whose name matches `query`. A blank query is refused.
pub fn search(catalog: &Vec<Book>, query: &str) -> (r: Result<Vec<Book>, Refusal>)
    ensures
        is_blank(query@) ==> r == Err::<Vec<Book>, Refusal>(Refusal::EmptyQuery),
        !is_blank(query@) ==> r is Ok && book_views(r->Ok_0@) == selected(
            book_views(catalog@),
            query@,
            None,
        ),
{
    if trim_chars(&chars_of(query)).len() == 0 {
        return Err(Refusal::EmptyQuery);
    }
    Ok(select(catalog, query, None))
}

/// Appends a book to the catalog.
pub fn create(catalog: &mut Vec<Book>, book: Book)
    ensures
        final(catalog)@ == old(catalog)@.push(book),
{
    catalog.push(book);
}

/// Removes the book at `index`; the others keep their order. An index beyond
/// the catalog is refused.
pub fn delete(catalog: &mut Vec<Book>, index: usize) -> (r: Result<(), Refusal>)
    ensures
        index < old(catalog).len() ==> r is Ok && final(catalog)@ == old(catalog)@.remove(
            index as int,
        ),
        index >= old(catalog).len() ==> r == Err::<(), Refusal>(Refusal::OutOfRange)
            && final(catalog)@ == old(catalog)@,
{
    if index >= catalog.len() {
        return Err(Refusal::OutOfRange);
    }
    catalog.remove(index);
    Ok(())
}

/// The position of the first book called `name`.
pub fn position(catalog: &Vec<Book>, name: &str) -> (r: Option<usize>)
    ensures
        match r {
            Some(i) => i < catalog.len() && i == first_named(book_views(catalog@), name@),
            None => first_named(book_views(catalog@), name@) == catalog.len(),
        },
{
    let wanted_name = name.to_owned();
    let mut i: usize = 0;
    while i < catalog.len()
        invariant
            i <= catalog.len(),
            wanted_name@ == name@,
            forall|j: int| 0 <= j < i ==> (#[trigger] book_views(catalog@)[j]).name != name@,
        decreases catalog.len() - i,
    {
        if catalog[i].name == wanted_name {
            proof {
                lemma_first_named(book_views(catalog@), name@, i as int);
            }
            return Some(i);
        }
        i += 1;
    }
    proof {
        lemma_first_named(book_views(catalog@), name@, catalog.len() as int);
    }
    None
}

/// Sets the flag of the first book called `name`, and of no other book, and
/// says whether there was such a book.
pub fn set_borrowed(catalog: &mut Vec<Book>, name: &str, value: bool) -> (found: bool)
    ensures
        book_views(final(catalog)@) == with_flag(book_views(old(catalog)@), name@, value),
        found == (first_named(book_views(old(catalog)@), name@) < old(catalog).len()),
        final(catalog).len() == old(catalog).len(),
        all_well_formed(book_views(old(catalog)@)) ==> all_well_formed(book_views(final(catalog)@)),
{
    match position(catalog, name) {
        None => false,
        Some(i) => {
            let book = &catalog[i];
            let patched = Book {
                name: book.name.clone(),
                author: book.author.clone(),
                year_published: book.year_published,
                borrowed: value,
                issue_date: book.issue_date,
            };
            catalog.set(i, patched);
            proof {
                let before = book_views(old(catalog)@);
                let after = book_views(catalog@);
                assert forall|k: int| 0 <= k < after.len() implies (#[trigger] after[k]).issue_date
                    == before[k].issue_date by {}
            }
            true
        },
    }
}

/// Appends a loan to the ledger.
pub fn append(ledger: &mut Vec<Loan>, loan: Loan)
    ensures
        final(ledger)@ == old(ledger)@.push(loan),
{
    ledger.push(loan);
}

/// Whether the loan is the borrower's loan of the book, given the borrower's
/// name trimmed and in upper case.
fn is_match(loan: &Loan, borrower_upper: &String, book_name: &String, Ghost(borrower): Ghost<
    Seq<char>,
>) -> (b: bool)
    requires
        borrower_upper@ == uppercase(trim(borrower)),
    ensures
        b == loan_matches(loan@, borrower, book_name@),
{
    to_upper(loan.borrower_name.as_str()) == *borrower_upper && loan.book_name == *book_name
}

/// The borrower's name as loans are compared by it: trimmed, in upper case.
fn borrower_key(borrower: &str) -> (key: String)
    ensures
        key@ == uppercase(trim(borrower@)),
{
    to_upper(string_of(&trim_chars(&chars_of(borrower))).as_str())
}

/// The first loan of the book to the borrower, if the ledger has one.
pub fn find_loan(ledger: &Vec<Loan>, borrower: &str, book_name: &str) -> (r: Option<usize>)
    ensures
        match r {
            Some(i) => i < ledger.len() && i == first_loan(
                loan_views(ledger@),
                borrower@,
                book_name@,
            ) && loan_matches(ledger[i as int]@, borrower@, book_name@),
            None => first_loan(loan_views(ledger@), borrower@, book_name@) == ledger.len()
                && !has_match(loan_views(ledger@), borrower@, book_name@),
        },
{
    let key = borrower_key(borrower);
    let name = book_name.to_owned();
    let mut i: usize = 0;
    while i < ledger.len()
        invariant
            i <= ledger.len(),
            key@ == uppercase(trim(borrower@)),
            name@ == book_name@,
            forall|j: int|
                0 <= j < i ==> !loan_matches(
                    #[trigger] loan_views(ledger@)[j],
                    borrower@,
                    book_name@,
                ),
        decreases ledger.len() - i,
    {
        if is_match(&ledger[i], &key, &name, Ghost(borrower@)) {
            proof {
                lemma_first_loan(loan_views(ledger@), borrower@, book_name@, i as int);
            }
            return Some(i);
        }
        i += 1;
    }
    assert(!has_match(loan_views(ledger@), borrower@, book_name@)) by {
        if has_match(loan_views(ledger@), borrower@, book_name@) {
            let k = choose|k: int|
                0 <= k < ledger.len() && loan_matches(
                    #[trigger] loan_views(ledger@)[k],
                    borrower@,
                    book_name@,
                );
        }
    }
    proof {
        lemma_first_loan(loan_views(ledger@), borrower@, book_name@, ledger.len() as int);
    }
    None
}

/// Removes every loan of the book to the borrower and says whether there was
/// one. The other loans keep their order; without a match the ledger stays
/// as it is.
pub fn remove_matching(ledger: &mut Vec<Loan>, borrower: &str, book_name: &str) -> (removed: bool)
    ensures
        loan_views(final(ledger)@) == without_matching(
            loan_views(old(ledger)@),
            borrower@,
            book_name@,
        ),
        removed == has_match(loan_views(old(ledger)@), borrower@, book_name@),
        !removed ==> loan_views(final(ledger)@) == loan_views(old(ledger)@),
        !has_match(loan_views(final(ledger)@), borrower@, book_name@),
{
    let key = borrower_key(borrower);
    let name = book_name.to_owned();
    let mut kept: Vec<Loan> = Vec::new();
    let mut i: usize = 0;
    while i < ledger.len()
        invariant
            i <= ledger.len(),
            key@ == uppercase(trim(borrower@)),
            name@ == book_name@,
            loan_views(kept@) == without_matching(
                loan_views(ledger@).take(i as int),
                borrower@,
                book_name@,
            ),
        decreases ledger.len() - i,
    {
        let ghost all = loan_views(ledger@);
        assert(all.take(i + 1).drop_last() =~= all.take(i as int));
        if !is_match(&ledger[i], &key, &name, Ghost(borrower@)) {
            let copy = ledger[i].clone();
            kept.push(copy);
        }
        i += 1;
    }
    assert(loan_views(ledger@).take(ledger.len() as int) =~= loan_views(ledger@));
    proof {
        lemma_without_matching(loan_views(ledger@), borrower@, book_name@);
    }
    let removed = kept.len() < ledger.len();
    *ledger = kept;
    removed
}

} // verus!
