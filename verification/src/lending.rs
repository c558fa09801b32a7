//! Borrowing and returning: the rules that change the catalog and the ledger
//! together, and the fee for a late return.

use vstd::prelude::*;
use crate::codec::{
    Book, BookView, Loan, LoanView, book_views, loan_views, all_well_formed, push_all,
};
use crate::date::{Instant, parsed_instant, days_between, parse_instant, whole_days};
use crate::store::{
    Refusal, selected, select, first_named, with_flag, set_borrowed, first_loan, find_loan,
    without_matching, remove_matching, has_match, loan_matches, lemma_first_named,
    lemma_first_named_is_first, lemma_without_matching,
};
use crate::text::{chars_of, string_of, trim, trim_chars, is_blank, is_trimmed, lemma_trim_fixed};

verus! {

/// A return is late after this many days.
pub const DAYS_ALLOWED: i64 = 14;

/// The fee for each day of a late return, in hundredths of the currency unit.
pub const FEE_PER_DAY: u128 = 50;

/// The catalog and the ledger, as mathematical values.
pub ghost struct Stores {
    pub catalog: Seq<BookView>,
    pub ledger: Seq<LoanView>,
}

/// The loan that is recorded when `borrower` takes the book out on `date`.
pub open spec fn new_loan(borrower: Seq<char>, book_name: Seq<char>, date: Seq<char>) -> LoanView {
    LoanView { borrower_name: trim(borrower), book_name: trim(book_name), borrow_date: trim(date) }
}

/// The stores after the book called `book_name` went out to `borrower`: the
/// ledger has the loan at its end, and the first book of that name is
/// flagged.
pub open spec fn lent(
    s: Stores,
    book_name: Seq<char>,
    borrower: Seq<char>,
    date: Seq<char>,
) -> Stores {
    Stores {
        catalog: with_flag(s.catalog, book_name, true),
        ledger: s.ledger.push(new_loan(borrower, book_name, date)),
    }
}

/// The stores after `borrower` brought the book called `book_name` back: the
/// ledger is without the borrower's loans of it, and the first book of that
/// name is no longer flagged.
pub open spec fn taken_back(s: Stores, book_name: Seq<char>, borrower: Seq<char>) -> Stores {
    Stores {
        catalog: with_flag(s.catalog, book_name, false),
        ledger: without_matching(s.ledger, borrower, book_name),
    }
}

/// The fee for a return, in hundredths of the currency unit. `days` counts
/// from now to the day of the loan, so it is negative for a loan in the past;
/// a fee is due once more than `DAYS_ALLOWED` days have gone by, and it is
/// `FEE_PER_DAY` for each day since the loan.
pub open spec fn late_fee(days: i64) -> Option<u128> {
    if days < -DAYS_ALLOWED {
        Some(((-(days as int)) * FEE_PER_DAY) as u128)
    } else {
        None
    }
}

/// A payment is confirmed by the word `done`, white space around it aside.
pub open spec fn is_done(confirmation: Seq<char>) -> bool {
    trim(confirmation) == seq!['d', 'o', 'n', 'e']
}

/// The text that a loan's date is read from: the date, then midnight UTC.
pub open spec fn midnight_text(date: Seq<char>) -> Seq<char> {
    trim(date) + "  00:00:0.000 +0000"@
}

/// The format that `midnight_text` is read under.
pub open spec fn midnight_format() -> Seq<char> {
    "%Y-%m-%d %H:%M:%S%.3f %z"@
}

/// The whole days from `now` to the midnight that began the day of the loan;
/// nothing where the date cannot be read.
pub open spec fn loan_days(date: Seq<char>, now: Instant) -> Option<i64> {
    match parsed_instant(midnight_text(date), midnight_format()) {
        None => None,
        Some(start) => days_between(start, now),
    }
}

/// Why a borrowing is refused, if it is.
pub open spec fn borrow_refusal(catalog: Seq<BookView>, query: Seq<char>, selection: int) -> Option<
    Refusal,
> {
    let shown = selected(catalog, query, Some(false));
    if is_blank(query) {
        Some(Refusal::EmptyQuery)
    } else if shown.len() == 0 {
        Some(Refusal::NotAvailable)
    } else if selection >= shown.len() {
        Some(Refusal::OutOfRange)
    } else {
        None
    }
}

/// What settling a return gives, and the stores after it. Where a fee is due
/// and the payment is not confirmed, the return is refused and nothing
/// changes; otherwise the book is taken back and the fee, if any, reported.
pub open spec fn settled(
    s: Stores,
    book_name: Seq<char>,
    borrower: Seq<char>,
    days: i64,
    confirmation: Seq<char>,
) -> (Result<Option<u128>, Refusal>, Stores) {
    if late_fee(days) is Some && !is_done(confirmation) {
        (Err(Refusal::NotConfirmed), s)
    } else {
        (Ok(late_fee(days)), taken_back(s, book_name, borrower))
    }
}

/// What a return is about, before anything changes: the name of the book
/// chosen and the days from now to the day of the borrower's first loan of
/// it; or why there is nothing to return.
pub open spec fn return_quote(
    s: Stores,
    query: Seq<char>,
    selection: int,
    borrower: Seq<char>,
    now: Instant,
) -> Result<(Seq<char>, i64), Refusal> {
    let shown = selected(s.catalog, query, Some(true));
    if shown.len() == 0 {
        Err(Refusal::NotFound)
    } else if selection >= shown.len() {
        Err(Refusal::OutOfRange)
    } else {
        let name = shown[selection].name;
        let at = first_loan(s.ledger, borrower, name);
        if at >= s.ledger.len() {
            Err(Refusal::NoSuchLoan)
        } else {
            match loan_days(s.ledger[at].borrow_date, now) {
                None => Err(Refusal::LoanDate),
                Some(days) => Ok((name, days)),
            }
        }
    }
}

/// What a return gives, and the stores after it.
pub open spec fn returned(
    s: Stores,
    query: Seq<char>,
    selection: int,
    borrower: Seq<char>,
    now: Instant,
    confirmation: Seq<char>,
) -> (Result<Option<u128>, Refusal>, Stores) {
    match return_quote(s, query, selection, borrower, now) {
        Err(e) => (Err(e), s),
        Ok(quote) => settled(s, quote.0, borrower, quote.1, confirmation),
    }
}

/// A quote, or the refusal, with the name taken by its view.
pub open spec fn quote_view(r: Result<(String, i64), Refusal>) -> Result<
    (Seq<char>, i64),
    Refusal,
> {
    match r {
        Ok(quote) => Ok((quote.0@, quote.1)),
        Err(e) => Err(e),
    }
}

/// The stores that a catalog and a ledger stand for.
pub open spec fn stores_of(catalog: Seq<Book>, ledger: Seq<Loan>) -> Stores {
    Stores { catalog: book_views(catalog), ledger: loan_views(ledger) }
}

/// Borrowing a book and then returning it leaves the book not flagged, every
/// other book as it was and the number of books unchanged, and leaves no
/// loan of the book to the borrower in the ledger: the ledger is the one
/// before the borrowing without such loans. Where the book was not flagged
/// before, the whole catalog is as it was; where the ledger held no such
/// loan before, the whole ledger is. The book is the first of its name, and
/// its name is trimmed, as every decoded name is.
pub proof fn lemma_borrow_then_return(
    s: Stores,
    book_name: Seq<char>,
    borrower: Seq<char>,
    date: Seq<char>,
)
    requires
        is_trimmed(book_name),
        first_named(s.catalog, book_name) < s.catalog.len(),
    ensures
        ({
            let k = first_named(s.catalog, book_name);
            let after = taken_back(lent(s, book_name, borrower, date), book_name, borrower);
            &&& after.catalog.len() == s.catalog.len()
            &&& after.catalog == s.catalog.update(
                k,
                BookView { borrowed: false, ..s.catalog[k] },
            )
            &&& !after.catalog[k].borrowed
            &&& !s.catalog[k].borrowed ==> after.catalog == s.catalog
            &&& !has_match(after.ledger, borrower, book_name)
            &&& after.ledger == without_matching(s.ledger, borrower, book_name)
            &&& !has_match(s.ledger, borrower, book_name) ==> after.ledger == s.ledger
        }),
{
    let k = first_named(s.catalog, book_name);
    lemma_trim_fixed(book_name);
    lemma_first_named_is_first(s.catalog, book_name);
    let out = lent(s, book_name, borrower, date);
    assert forall|j: int| 0 <= j < k implies (#[trigger] out.catalog[j]).name != book_name by {
        assert(out.catalog[j] == s.catalog[j]);
    }
    lemma_first_named(out.catalog, book_name, k);
    assert(out.ledger.drop_last() =~= s.ledger);
    lemma_without_matching(s.ledger, borrower, book_name);
}

/// The books that can be borrowed under `query`, in catalog order: those
/// whose name matches and that are not borrowed. None of them is borrowed.
pub fn borrow_candidates(catalog: &Vec<Book>, query: &str) -> (found: Vec<Book>)
    ensures
        book_views(found@) == selected(book_views(catalog@), query@, Some(false)),
        forall|i: int| 0 <= i < found.len() ==> !(#[trigger] found[i])@.borrowed,
{
    select(catalog, query, Some(false))
}

/// The books that can be returned under `query`, in catalog order: those
/// whose name matches and that are borrowed.
pub fn return_candidates(catalog: &Vec<Book>, query: &str) -> (found: Vec<Book>)
    ensures
        book_views(found@) == selected(book_views(catalog@), query@, Some(true)),
        forall|i: int| 0 <= i < found.len() ==> (#[trigger] found[i])@.borrowed,
{
    select(catalog, query, Some(true))
}

/// The fee for a return `days` after now, as `late_fee` defines it.
pub fn fee_due(days: i64) -> (fee: Option<u128>)
    ensures
        fee == late_fee(days),
{
    if days < -DAYS_ALLOWED {
        let elapsed: i128 = -(days as i128);
        Some((elapsed as u128) * FEE_PER_DAY)
    } else {
        None
    }
}

/// Whether the text confirms a payment.
pub fn confirms(confirmation: &str) -> (b: bool)
    ensures
        b == is_done(confirmation@),
{
    let v = trim_chars(&chars_of(confirmation));
    let b = v.len() == 4 && v[0] == 'd' && v[1] == 'o' && v[2] == 'n' && v[3] == 'e';
    proof {
        let word = seq!['d', 'o', 'n', 'e'];
        if b {
            assert(v@ =~= word);
        } else if v.len() == 4 {
            assert(word[0] == 'd' && word[1] == 'o' && word[2] == 'n' && word[3] == 'e');
        }
    }
    b
}

/// The whole days from `now` to the day of a loan, negative for a loan in
/// the past; nothing where the date cannot be read.
pub fn loan_age(date: &str, now: Instant) -> (days: Option<i64>)
    ensures
        days == loan_days(date@, now),
{
    let mut text = trim_chars(&chars_of(date));
    push_all(&mut text, &chars_of("  00:00:0.000 +0000"));
    match parse_instant(string_of(&text).as_str(), "%Y-%m-%d %H:%M:%S%.3f %z") {
        Err(_) => None,
        Ok(start) => whole_days(start, now),
    }
}

/// Records that the book called `book_name` went out to `borrower` on
/// `date`.
pub fn lend(
    catalog: &mut Vec<Book>,
    ledger: &mut Vec<Loan>,
    book_name: &str,
    borrower: &str,
    date: &str,
)
    ensures
        stores_of(final(catalog)@, final(ledger)@) == lent(
            stores_of(old(catalog)@, old(ledger)@),
            book_name@,
            borrower@,
            date@,
        ),
        all_well_formed(book_views(old(catalog)@)) ==> all_well_formed(book_views(final(catalog)@)),
{
    let loan = Loan {
        borrower_name: string_of(&trim_chars(&chars_of(borrower))),
        book_name: string_of(&trim_chars(&chars_of(book_name))),
        borrow_date: string_of(&trim_chars(&chars_of(date))),
    };
    assert(loan_views(ledger@.push(loan)) =~= loan_views(ledger@).push(loan@));
    ledger.push(loan);
    set_borrowed(catalog, book_name, true);
}

/// Borrows the book at position `selection` of the books that `query` shows
/// among those not borrowed. A blank query, a search that shows nothing and a
/// position beyond the list are refused, and then nothing changes.
pub fn borrow_book(
    catalog: &mut Vec<Book>,
    ledger: &mut Vec<Loan>,
    query: &str,
    selection: usize,
    borrower: &str,
    date: &str,
) -> (r: Result<(), Refusal>)
    ensures
        match borrow_refusal(book_views(old(catalog)@), query@, selection as int) {
            Some(e) => r == Err::<(), Refusal>(e) && final(catalog)@ == old(catalog)@
                && final(ledger)@ == old(ledger)@,
            None => r is Ok && stores_of(final(catalog)@, final(ledger)@) == lent(
                stores_of(old(catalog)@, old(ledger)@),
                selected(book_views(old(catalog)@), query@, Some(false))[selection as int].name,
                borrower@,
                date@,
            ),
        },
        all_well_formed(book_views(old(catalog)@)) ==> all_well_formed(book_views(final(catalog)@)),
{
    if trim_chars(&chars_of(query)).len() == 0 {
        return Err(Refusal::EmptyQuery);
    }
    let shown = borrow_candidates(catalog, query);
    if shown.len() == 0 {
        return Err(Refusal::NotAvailable);
    }
    if selection >= shown.len() {
        return Err(Refusal::OutOfRange);
    }
    lend(catalog, ledger, shown[selection].name.as_str(), borrower, date);
    Ok(())
}

/// Settles the return of the book called `book_name` by `borrower`, `days`
/// being the days from now to the day of the loan.
pub fn settle(
    catalog: &mut Vec<Book>,
    ledger: &mut Vec<Loan>,
    book_name: &str,
    borrower: &str,
    days: i64,
    confirmation: &str,
) -> (r: Result<Option<u128>, Refusal>)
    ensures
        (r, stores_of(final(catalog)@, final(ledger)@)) == settled(
            stores_of(old(catalog)@, old(ledger)@),
            book_name@,
            borrower@,
            days,
            confirmation@,
        ),
        r is Err ==> final(catalog)@ == old(catalog)@ && final(ledger)@ == old(ledger)@,
        all_well_formed(book_views(old(catalog)@)) ==> all_well_formed(book_views(final(catalog)@)),
{
    let fee = fee_due(days);
    if fee.is_some() && !confirms(confirmation) {
        return Err(Refusal::NotConfirmed);
    }
    remove_matching(ledger, borrower, book_name);
    set_borrowed(catalog, book_name, false);
    Ok(fee)
}

/// Returns the book at position `selection` of the borrowed books that
/// `query` shows. The fee is reckoned from the borrower's first loan of the
/// book; where one is due, `confirmation` has to confirm its payment. A
/// refusal changes nothing.
pub fn return_book(
    catalog: &mut Vec<Book>,
    ledger: &mut Vec<Loan>,
    query: &str,
    selection: usize,
    borrower: &str,
    now: Instant,
    confirmation: &str,
) -> (r: Result<Option<u128>, Refusal>)
    ensures
        (r, stores_of(final(catalog)@, final(ledger)@)) == returned(
            stores_of(old(catalog)@, old(ledger)@),
            query@,
            selection as int,
            borrower@,
            now,
            confirmation@,
        ),
        r is Err ==> final(catalog)@ == old(catalog)@ && final(ledger)@ == old(ledger)@,
        all_well_formed(book_views(old(catalog)@)) ==> all_well_formed(book_views(final(catalog)@)),
{
    match quote_return(catalog, ledger, query, selection, borrower, now) {
        Err(e) => Err(e),
        Ok(quote) => settle(catalog, ledger, quote.0.as_str(), borrower, quote.1, confirmation),
    }
}

/// Looks up what a return is about and changes nothing: the name of the book
/// at position `selection` of the borrowed books that `query` shows, and the
/// days from `now` to the day of the borrower's first loan of it.
pub fn quote_return(
    catalog: &Vec<Book>,
    ledger: &Vec<Loan>,
    query: &str,
    selection: usize,
    borrower: &str,
    now: Instant,
) -> (r: Result<(String, i64), Refusal>)
    ensures
        quote_view(r) == return_quote(
            stores_of(catalog@, ledger@),
            query@,
            selection as int,
            borrower@,
            now,
        ),
{
    let shown = return_candidates(catalog, query);
    if shown.len() == 0 {
        return Err(Refusal::NotFound);
    }
    if selection >= shown.len() {
        return Err(Refusal::OutOfRange);
    }
    let name = shown[selection].name.clone();
    let at = match find_loan(ledger, borrower, name.as_str()) {
        None => {
            return Err(Refusal::NoSuchLoan);
        },
        Some(at) => at,
    };
    match loan_age(ledger[at].borrow_date.as_str(), now) {
        None => Err(Refusal::LoanDate),
        Some(days) => Ok((name, days)),
    }
}

} // verus!
