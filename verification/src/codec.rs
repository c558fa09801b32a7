//! The record format: one book or one loan per line, fields separated by
//! commas.

use vstd::prelude::*;
use crate::date::{Date, write_date, read_date, parsed_date, iso_format, lemma_date_text};
use crate::number::{
    decimal, parsed_u32, parse_u32, u32_text, lemma_decimal, lemma_parse_decimal, is_digit,
};
use crate::text::{
    chars_of, string_of, trim, trim_chars, split, split_chars, views, is_blank, is_space, free_of,
    is_trimmed, lemma_split_first, lemma_split_whole, lemma_split_concat, lemma_trim_fixed,
    lemma_trim_is_trimmed,
};

verus! {

/// A book of the catalog.
#[derive(Debug, PartialEq, Eq)]
pub struct Book {
    pub name: String,
    pub author: String,
    pub year_published: u32,
    pub borrowed: bool,
    pub issue_date: Date,
}

/// What a `Book` holds, as mathematical values.
pub ghost struct BookView {
    pub name: Seq<char>,
    pub author: Seq<char>,
    pub year_published: u32,
    pub borrowed: bool,
    pub issue_date: Date,
}

/// A loan of the ledger: who has which book since when. The date is kept as
/// the text that was recorded.
#[derive(Debug, PartialEq, Eq)]
pub struct Loan {
    pub borrower_name: String,
    pub book_name: String,
    pub borrow_date: String,
}

/// What a `Loan` holds, as mathematical values.
pub ghost struct LoanView {
    pub borrower_name: Seq<char>,
    pub book_name: Seq<char>,
    pub borrow_date: Seq<char>,
}

/// Why a catalog text could not be decoded.
#[derive(Clone, Copy, Debug, PartialEq, Eq, Structural)]
pub enum DecodeError {
    /// A line has fewer than five fields.
    MissingField,
    /// The fifth field of a line is no calendar date.
    DateFormat,
}

impl View for Book {
    type V = BookView;

    open spec fn view(&self) -> BookView {
        BookView {
            name: self.name@,
            author: self.author@,
            year_published: self.year_published,
            borrowed: self.borrowed,
            issue_date: self.issue_date,
        }
    }
}

impl View for Loan {
    type V = LoanView;

    open spec fn view(&self) -> LoanView {
        LoanView {
            borrower_name: self.borrower_name@,
            book_name: self.book_name@,
            borrow_date: self.borrow_date@,
        }
    }
}

impl Clone for Book {
    fn clone(&self) -> (copy: Self)
        ensures
            copy == *self,
    {
        Book {
            name: self.name.clone(),
            author: self.author.clone(),
            year_published: self.year_published,
            borrowed: self.borrowed,
            issue_date: self.issue_date,
        }
    }
}

impl Clone for Loan {
    fn clone(&self) -> (copy: Self)
        ensures
            copy == *self,
    {
        Loan {
            borrower_name: self.borrower_name.clone(),
            book_name: self.book_name.clone(),
            borrow_date: self.borrow_date.clone(),
        }
    }
}

/// The views of a sequence of books.
pub open spec fn book_views(books: Seq<Book>) -> Seq<BookView> {
    books.map_values(|b: Book| b@)
}

/// The views of a sequence of loans.
pub open spec fn loan_views(loans: Seq<Loan>) -> Seq<LoanView> {
    loans.map_values(|l: Loan| l@)
}

/// Every book of the sequence has a date that exists.
pub open spec fn all_well_formed(books: Seq<BookView>) -> bool {
    forall|i: int| 0 <= i < books.len() ==> (#[trigger] books[i]).issue_date.well_formed()
}

/// The name and the author of every book of the sequence are trimmed.
pub open spec fn all_trimmed(books: Seq<BookView>) -> bool {
    forall|i: int|
        0 <= i < books.len() ==> is_trimmed((#[trigger] books[i]).name) && is_trimmed(
            books[i].author,
        )
}

/// A text that can stand as a field of a record and be read back unchanged.
pub open spec fn is_field(s: Seq<char>) -> bool {
    is_trimmed(s) && free_of(s, ',') && free_of(s, '\n')
}

impl BookView {
    /// The book's date exists, and its name and author can each stand as a
    /// field.
    pub open spec fn valid(self) -> bool {
        &&& self.issue_date.well_formed()
        &&& is_field(self.name)
        &&& is_field(self.author)
    }
}

/// A flag as text.
pub open spec fn bool_text(b: bool) -> Seq<char> {
    if b {
        seq!['t', 'r', 'u', 'e']
    } else {
        seq!['f', 'a', 'l', 's', 'e']
    }
}

/// A flag is set by the text `true` and by no other.
pub open spec fn parsed_bool(s: Seq<char>) -> bool {
    s == bool_text(true)
}

/// Five fields as one line without its end.
pub open spec fn joined(
    f0: Seq<char>,
    f1: Seq<char>,
    f2: Seq<char>,
    f3: Seq<char>,
    f4: Seq<char>,
) -> Seq<char> {
    f0 + seq![','] + (f1 + seq![','] + (f2 + seq![','] + (f3 + seq![','] + f4)))
}

/// The record of a book: name, author, year, flag and date, the first two
/// trimmed, separated by commas.
pub open spec fn record(b: BookView) -> Seq<char> {
    joined(
        trim(b.name),
        trim(b.author),
        decimal(b.year_published as nat),
        bool_text(b.borrowed),
        b.issue_date.text(),
    )
}

/// The line of a book: its record, ended by a newline.
pub open spec fn encoded_book(b: BookView) -> Seq<char> {
    record(b) + seq!['\n']
}

/// The records of a sequence of books.
pub open spec fn records(books: Seq<BookView>) -> Seq<Seq<char>> {
    books.map_values(|b: BookView| record(b))
}

/// Every book of the sequence is valid.
pub open spec fn all_valid(books: Seq<BookView>) -> bool {
    forall|i: int| 0 <= i < books.len() ==> (#[trigger] books[i]).valid()
}

/// Decoding the line of the book gives the book and nothing else.
pub open spec fn reads_back(b: BookView) -> bool {
    decoded_books(encoded_book(b)) == Ok::<Seq<BookView>, DecodeError>(seq![b])
}

/// Every valid book of the sequence reads back.
pub open spec fn all_read_back(books: Seq<BookView>) -> bool {
    forall|i: int| 0 <= i < books.len() && (#[trigger] books[i]).valid() ==> reads_back(books[i])
}

/// The line of a loan: borrower, book and date, separated by commas and ended
/// by a newline.
pub open spec fn encoded_loan(l: LoanView) -> Seq<char> {
    l.borrower_name + seq![','] + l.book_name + seq![','] + l.borrow_date + seq!['\n']
}

/// The lines of all the books, in order.
pub open spec fn encoded_books(books: Seq<BookView>) -> Seq<char>
    decreases books.len(),
{
    if books.len() == 0 {
        Seq::empty()
    } else {
        encoded_books(books.drop_last()) + encoded_book(books.last())
    }
}

/// The lines of all the loans, in order.
pub open spec fn encoded_loans(loans: Seq<LoanView>) -> Seq<char>
    decreases loans.len(),
{
    if loans.len() == 0 {
        Seq::empty()
    } else {
        encoded_loans(loans.drop_last()) + encoded_loan(loans.last())
    }
}

/// The book that the fields of a line make, given what the date field was
/// read as. Too few fields are an error before the date is looked at; a year
/// that is no number counts as 0, and a flag that is not `true` as unset.
pub open spec fn book_of_fields(fields: Seq<Seq<char>>, date: Option<Date>) -> Result<
    BookView,
    DecodeError,
> {
    if fields.len() < 5 {
        Err(DecodeError::MissingField)
    } else {
        match date {
            None => Err(DecodeError::DateFormat),
            Some(d) => Ok(
                BookView {
                    name: trim(fields[0]),
                    author: trim(fields[1]),
                    year_published: match parsed_u32(trim(fields[2])) {
                        Some(y) => y,
                        None => 0,
                    },
                    borrowed: parsed_bool(trim(fields[3])),
                    issue_date: d,
                },
            ),
        }
    }
}

/// What the date field of a line is read as; nothing where there is no such
/// field.
pub open spec fn date_of_fields(fields: Seq<Seq<char>>) -> Option<Date> {
    if fields.len() < 5 {
        None
    } else {
        parsed_date(trim(fields[4]), iso_format())
    }
}

/// The book that one line stands for.
pub open spec fn decoded_book(line: Seq<char>) -> Result<BookView, DecodeError> {
    let fields = split(line, ',');
    book_of_fields(fields, date_of_fields(fields))
}

/// The books of a sequence of lines: blank lines are passed over, and the
/// first line that fails makes the whole fail with its error.
pub open spec fn decoded_lines(lines: Seq<Seq<char>>) -> Result<Seq<BookView>, DecodeError>
    decreases lines.len(),
{
    if lines.len() == 0 {
        Ok(Seq::empty())
    } else {
        match decoded_lines(lines.drop_last()) {
            Err(e) => Err(e),
            Ok(books) => if is_blank(lines.last()) {
                Ok(books)
            } else {
                match decoded_book(lines.last()) {
                    Err(e) => Err(e),
                    Ok(b) => Ok(books.push(b)),
                }
            },
        }
    }
}

/// The books that a catalog text stands for.
pub open spec fn decoded_books(text: Seq<char>) -> Result<Seq<BookView>, DecodeError> {
    decoded_lines(split(text, '\n'))
}

/// The field at `i`, or the empty text where the line has no such field.
pub open spec fn field_or_empty(fields: Seq<Seq<char>>, i: int) -> Seq<char> {
    if 0 <= i < fields.len() {
        fields[i]
    } else {
        Seq::empty()
    }
}

/// The loan that one line stands for: its first three fields as they are.
pub open spec fn decoded_loan(line: Seq<char>) -> LoanView {
    let fields = split(line, ',');
    LoanView {
        borrower_name: field_or_empty(fields, 0),
        book_name: field_or_empty(fields, 1),
        borrow_date: field_or_empty(fields, 2),
    }
}

/// The loans of a sequence of lines; blank lines are passed over.
pub open spec fn decoded_loan_lines(lines: Seq<Seq<char>>) -> Seq<LoanView>
    decreases lines.len(),
{
    if lines.len() == 0 {
        Seq::empty()
    } else if is_blank(lines.last()) {
        decoded_loan_lines(lines.drop_last())
    } else {
        decoded_loan_lines(lines.drop_last()).push(decoded_loan(lines.last()))
    }
}

/// The loans that a ledger text stands for.
pub open spec fn decoded_loans(text: Seq<char>) -> Seq<LoanView> {
    decoded_loan_lines(split(text, '\n'))
}

/// A decoded book, or the error, with the book taken by its view.
pub open spec fn book_result_view(r: Result<Book, DecodeError>) -> Result<BookView, DecodeError> {
    match r {
        Ok(b) => Ok(b@),
        Err(e) => Err(e),
    }
}

/// Decoded books, or the error, with the books taken by their views.
pub open spec fn books_result_view(r: Result<Vec<Book>, DecodeError>) -> Result<
    Seq<BookView>,
    DecodeError,
> {
    match r {
        Ok(books) => Ok(book_views(books@)),
        Err(e) => Err(e),
    }
}

/// Appends the characters of `piece` to `out`.
pub(crate) fn push_all(out: &mut Vec<char>, piece: &Vec<char>)
    ensures
        final(out)@ == old(out)@ + piece@,
{
    let mut i: usize = 0;
    while i < piece.len()
        invariant
            i <= piece.len(),
            out@ == old(out)@ + piece@.take(i as int),
        decreases piece.len() - i,
    {
        out.push(piece[i]);
        i += 1;
    }
}

/// Whether `v` spells `true`.
fn is_true_text(v: &Vec<char>) -> (b: bool)
    ensures
        b == parsed_bool(v@),
{
    let b = v.len() == 4 && v[0] == 't' && v[1] == 'r' && v[2] == 'u' && v[3] == 'e';
    proof {
        if b {
            assert(v@ =~= bool_text(true));
        } else if v.len() == 4 {
            assert(bool_text(true)[0] == 't' && bool_text(true)[1] == 'r' && bool_text(true)[2]
                == 'u' && bool_text(true)[3] == 'e');
        }
    }
    b
}

/// The record of a valid book holds no newline, is not blank, and has the
/// five fields that it was made of, each of which is trimmed.
proof fn lemma_record_fields(b: BookView)
    requires
        b.valid(),
    ensures
        free_of(record(b), '\n'),
        !is_blank(record(b)),
        split(record(b), ',') == seq![
            b.name,
            b.author,
            decimal(b.year_published as nat),
            bool_text(b.borrowed),
            b.issue_date.text(),
        ],
        trim(b.name) == b.name,
        trim(b.author) == b.author,
        trim(decimal(b.year_published as nat)) == decimal(b.year_published as nat),
        trim(bool_text(b.borrowed)) == bool_text(b.borrowed),
        trim(b.issue_date.text()) == b.issue_date.text(),
{
    let f0 = b.name;
    let f1 = b.author;
    let f2 = decimal(b.year_published as nat);
    let f3 = bool_text(b.borrowed);
    let f4 = b.issue_date.text();
    lemma_trim_fixed(f0);
    lemma_trim_fixed(f1);
    lemma_decimal(b.year_published as nat);
    lemma_date_text(b.issue_date);
    assert(forall|i: int|
        0 <= i < f2.len() ==> !is_space(#[trigger] f2[i]) && f2[i] != ',' && f2[i] != '\n');
    assert(forall|i: int|
        0 <= i < f4.len() ==> !is_space(#[trigger] f4[i]) && f4[i] != ',' && f4[i] != '\n');
    lemma_trim_fixed(f2);
    lemma_trim_fixed(f3);
    lemma_trim_fixed(f4);
    let r3 = f3 + seq![','] + f4;
    let r2 = f2 + seq![','] + r3;
    let r1 = f1 + seq![','] + r2;
    let whole = f0 + seq![','] + r1;
    lemma_split_whole(f4, ',');
    lemma_split_first(f3, ',', f4);
    lemma_split_first(f2, ',', r3);
    lemma_split_first(f1, ',', r2);
    lemma_split_first(f0, ',', r1);
    assert(whole.len() > 0 && !is_space(whole[0]) && !is_space(whole.last()));
    lemma_trim_fixed(whole);
}

/// The line of a valid book stands for what its record stands for.
proof fn lemma_line(b: BookView)
    requires
        b.valid(),
    ensures
        decoded_books(encoded_book(b)) == match decoded_book(record(b)) {
            Ok(book) => Ok::<Seq<BookView>, DecodeError>(seq![book]),
            Err(e) => Err(e),
        },
{
    lemma_record_fields(b);
    let whole = record(b);
    let nothing = Seq::<char>::empty();
    lemma_split_first(whole, '\n', nothing);
    lemma_split_whole(nothing, '\n');
    let lines = split(encoded_book(b), '\n');
    assert(decoded_lines(lines.drop_last().drop_last()) == Ok::<Seq<BookView>, DecodeError>(
        Seq::empty(),
    ));
    if let Ok(book) = decoded_book(whole) {
        assert(decoded_lines(lines.drop_last()) == Ok::<Seq<BookView>, DecodeError>(seq![book]));
    }
}

/// The lines of a text of books are the records of the books, and an empty
/// line after the last.
proof fn lemma_lines_of_books(books: Seq<BookView>)
    requires
        forall|i: int| 0 <= i < books.len() ==> free_of(record(#[trigger] books[i]), '\n'),
    ensures
        split(encoded_books(books), '\n') == records(books).push(Seq::empty()),
    decreases books.len(),
{
    let nothing = Seq::<char>::empty();
    if books.len() == 0 {
        lemma_split_whole(nothing, '\n');
    } else {
        let front = books.drop_last();
        let last = record(books.last());
        lemma_lines_of_books(front);
        let a = encoded_books(front);
        let b = encoded_book(books.last());
        lemma_split_first(last, '\n', nothing);
        lemma_split_whole(nothing, '\n');
        lemma_split_concat(a, b, '\n');
    }
}

/// Records that each stand for their book stand together for the books.
proof fn lemma_decode_records(books: Seq<BookView>)
    requires
        forall|i: int|
            0 <= i < books.len() ==> !is_blank(record(#[trigger] books[i])) && decoded_book(
                record(books[i]),
            ) == Ok::<BookView, DecodeError>(books[i]),
    ensures
        decoded_lines(records(books)) == Ok::<Seq<BookView>, DecodeError>(books),
    decreases books.len(),
{
    if books.len() == 0 {
        assert(books =~= Seq::<BookView>::empty());
    } else {
        lemma_decode_records(books.drop_last());
        assert(records(books).drop_last() =~= records(books.drop_last()));
        assert(books.drop_last().push(books.last()) =~= books);
    }
}

/// Where each of a sequence of valid books reads back alone, the text of them
/// all reads back as the sequence.
proof fn lemma_round_trip(books: Seq<BookView>)
    requires
        all_valid(books),
        all_read_back(books),
    ensures
        decoded_books(encoded_books(books)) == Ok::<Seq<BookView>, DecodeError>(books),
{
    assert forall|i: int| 0 <= i < books.len() implies free_of(record(#[trigger] books[i]), '\n')
        && !is_blank(record(books[i])) && decoded_book(record(books[i])) == Ok::<
        BookView,
        DecodeError,
    >(books[i]) by {
        let b = books[i];
        lemma_record_fields(b);
        lemma_line(b);
        if decoded_book(record(b)) is Ok {
            assert(seq![decoded_book(record(b))->Ok_0][0] == seq![b][0]);
        }
    }
    lemma_lines_of_books(books);
    lemma_decode_records(books);
    let nothing = Seq::<char>::empty();
    let lines = records(books).push(nothing);
    assert(lines.drop_last() =~= records(books));
}

/// The line of a book. For a valid book, decoding the line gives exactly that
/// book back.
pub fn encode_book(b: &Book) -> (line: String)
    requires
        b@.issue_date.well_formed(),
    ensures
        line@ == encoded_book(b@),
        b@.valid() ==> reads_back(b@),
{
    let mut out: Vec<char> = trim_chars(&chars_of(b.name.as_str()));
    out.push(',');
    push_all(&mut out, &trim_chars(&chars_of(b.author.as_str())));
    out.push(',');
    push_all(&mut out, &u32_text(b.year_published));
    out.push(',');
    if b.borrowed {
        out.push('t');
        out.push('r');
        out.push('u');
        out.push('e');
    } else {
        out.push('f');
        out.push('a');
        out.push('l');
        out.push('s');
        out.push('e');
    }
    out.push(',');
    let date = write_date(&b.issue_date);
    push_all(&mut out, &chars_of(date.as_str()));
    out.push('\n');
    proof {
        assert(out@ =~= encoded_book(b@));
        if b@.valid() {
            lemma_record_fields(b@);
            lemma_parse_decimal(b.year_published);
            lemma_line(b@);
        }
    }
    string_of(&out)
}

impl Book {
    /// The line of the book, as `encode_book` gives it.
    pub fn to_string(&self) -> (line: String)
        requires
            self@.issue_date.well_formed(),
        ensures
            line@ == encoded_book(self@),
    {
        encode_book(self)
    }
}

/// The line of a loan.
pub fn encode_loan(l: &Loan) -> (line: String)
    ensures
        line@ == encoded_loan(l@),
{
    let mut out: Vec<char> = chars_of(l.borrower_name.as_str());
    out.push(',');
    push_all(&mut out, &chars_of(l.book_name.as_str()));
    out.push(',');
    push_all(&mut out, &chars_of(l.borrow_date.as_str()));
    out.push('\n');
    string_of(&out)
}

/// Makes a book of the fields of a line and of what its date field was read
/// as.
pub fn book_from_fields(fields: &Vec<Vec<char>>, date: Option<Date>) -> (r: Result<
    Book,
    DecodeError,
>)
    ensures
        book_result_view(r) == book_of_fields(views(fields@), date),
        r is Ok ==> is_trimmed(r->Ok_0@.name) && is_trimmed(r->Ok_0@.author),
{
    proof {
        if fields.len() >= 5 {
            lemma_trim_is_trimmed(fields@[0]@);
            lemma_trim_is_trimmed(fields@[1]@);
        }
    }
    if fields.len() < 5 {
        return Err(DecodeError::MissingField);
    }
    match date {
        None => Err(DecodeError::DateFormat),
        Some(d) => {
            let name = string_of(&trim_chars(&fields[0]));
            let author = string_of(&trim_chars(&fields[1]));
            let year = match parse_u32(&trim_chars(&fields[2])) {
                Some(y) => y,
                None => 0,
            };
            let borrowed = is_true_text(&trim_chars(&fields[3]));
            Ok(Book { name, author, year_published: year, borrowed, issue_date: d })
        },
    }
}

/// The book that is entered from four texts: its name, its author, its year
/// and its date of issue. It is not borrowed; the year counts as 0 where it
/// is no number.
pub open spec fn entered_book(
    name: Seq<char>,
    author: Seq<char>,
    year: Seq<char>,
    date: Option<Date>,
) -> Result<BookView, DecodeError> {
    match date {
        None => Err(DecodeError::DateFormat),
        Some(d) => Ok(
            BookView {
                name: trim(name),
                author: trim(author),
                year_published: match parsed_u32(trim(year)) {
                    Some(y) => y,
                    None => 0,
                },
                borrowed: false,
                issue_date: d,
            },
        ),
    }
}

/// Makes the book to enter into the catalog, or fails where the date of
/// issue, trimmed, is no date.
pub fn new_book(name: &str, author: &str, year: &str, issue_date: &str) -> (r: Result<
    Book,
    DecodeError,
>)
    ensures
        book_result_view(r) == entered_book(
            name@,
            author@,
            year@,
            parsed_date(trim(issue_date@), iso_format()),
        ),
        r is Ok ==> r->Ok_0@.issue_date.well_formed(),
        r is Ok ==> is_trimmed(r->Ok_0@.name) && is_trimmed(r->Ok_0@.author),
{
    proof {
        lemma_trim_is_trimmed(name@);
        lemma_trim_is_trimmed(author@);
    }
    match read_date(string_of(&trim_chars(&chars_of(issue_date))).as_str()) {
        None => Err(DecodeError::DateFormat),
        Some(d) => {
            let year_published = match parse_u32(&trim_chars(&chars_of(year))) {
                Some(y) => y,
                None => 0,
            };
            Ok(
                Book {
                    name: string_of(&trim_chars(&chars_of(name))),
                    author: string_of(&trim_chars(&chars_of(author))),
                    year_published,
                    borrowed: false,
                    issue_date: d,
                },
            )
        },
    }
}

/// Decodes one line of a catalog.
pub fn decode_book(line: &Vec<char>) -> (r: Result<Book, DecodeError>)
    ensures
        book_result_view(r) == decoded_book(line@),
        r is Ok ==> r->Ok_0@.issue_date.well_formed(),
        r is Ok ==> is_trimmed(r->Ok_0@.name) && is_trimmed(r->Ok_0@.author),
{
    let fields = split_chars(line, ',');
    let date = if fields.len() < 5 {
        None
    } else {
        read_date(string_of(&trim_chars(&fields[4])).as_str())
    };
    book_from_fields(&fields, date)
}

/// Once a prefix of the lines fails, the whole fails with the same error.
proof fn lemma_error_stays(lines: Seq<Seq<char>>, n: int, e: DecodeError)
    requires
        0 <= n <= lines.len(),
        decoded_lines(lines.take(n)) == Err::<Seq<BookView>, DecodeError>(e),
    ensures
        decoded_lines(lines) == Err::<Seq<BookView>, DecodeError>(e),
    decreases lines.len() - n,
{
    if n == lines.len() {
        assert(lines.take(n) =~= lines);
    } else {
        assert(lines.take(n + 1).drop_last() =~= lines.take(n));
        lemma_error_stays(lines, n + 1, e);
    }
}

/// Decodes a catalog: the books of its lines in order, or the error of the
/// first line that fails.
pub fn decode_books(text: &str) -> (r: Result<Vec<Book>, DecodeError>)
    ensures
        books_result_view(r) == decoded_books(text@),
        r is Ok ==> all_well_formed(book_views(r->Ok_0@)),
        r is Ok ==> all_trimmed(book_views(r->Ok_0@)),
{
    let chars = chars_of(text);
    let lines = split_chars(&chars, '\n');
    let mut books: Vec<Book> = Vec::new();
    let mut i: usize = 0;
    assert(book_views(books@) =~= Seq::<BookView>::empty());
    while i < lines.len()
        invariant
            i <= lines.len(),
            views(lines@) == split(text@, '\n'),
            decoded_lines(views(lines@).take(i as int)) == Ok::<Seq<BookView>, DecodeError>(
                book_views(books@),
            ),
            all_well_formed(book_views(books@)),
            all_trimmed(book_views(books@)),
        decreases lines.len() - i,
    {
        let ghost all = views(lines@);
        assert(all.take(i + 1).drop_last() =~= all.take(i as int));
        let trimmed = trim_chars(&lines[i]);
        if trimmed.len() > 0 {
            match decode_book(&lines[i]) {
                Err(e) => {
                    proof {
                        lemma_error_stays(all, i + 1, e);
                    }
                    return Err(e);
                },
                Ok(b) => {
                    assert(book_views(books@.push(b)) =~= book_views(books@).push(b@));
                    books.push(b);
                },
            }
        }
        i += 1;
    }
    assert(views(lines@).take(lines.len() as int) =~= views(lines@));
    Ok(books)
}

/// Decodes one line of a ledger.
pub fn decode_loan(line: &Vec<char>) -> (l: Loan)
    ensures
        l@ == decoded_loan(line@),
{
    let fields = split_chars(line, ',');
    let nothing: Vec<char> = Vec::new();
    let borrower_name = string_of(if fields.len() > 0 { &fields[0] } else { &nothing });
    let book_name = string_of(if fields.len() > 1 { &fields[1] } else { &nothing });
    let borrow_date = string_of(if fields.len() > 2 { &fields[2] } else { &nothing });
    Loan { borrower_name, book_name, borrow_date }
}

/// Decodes a ledger: the loans of its lines in order. No line fails.
pub fn decode_loans(text: &str) -> (loans: Vec<Loan>)
    ensures
        loan_views(loans@) == decoded_loans(text@),
{
    let chars = chars_of(text);
    let lines = split_chars(&chars, '\n');
    let mut loans: Vec<Loan> = Vec::new();
    let mut i: usize = 0;
    while i < lines.len()
        invariant
            i <= lines.len(),
            views(lines@) == split(text@, '\n'),
            decoded_loan_lines(views(lines@).take(i as int)) == loan_views(loans@),
        decreases lines.len() - i,
    {
        let ghost all = views(lines@);
        assert(all.take(i + 1).drop_last() =~= all.take(i as int));
        let trimmed = trim_chars(&lines[i]);
        if trimmed.len() > 0 {
            let l = decode_loan(&lines[i]);
            loans.push(l);
        }
        i += 1;
    }
    assert(views(lines@).take(lines.len() as int) =~= views(lines@));
    loans
}

/// The text of a catalog: the lines of its books in order. For valid books,
/// decoding the text gives exactly those books back.
pub fn encode_books(books: &Vec<Book>) -> (text: String)
    requires
        all_well_formed(book_views(books@)),
    ensures
        text@ == encoded_books(book_views(books@)),
        all_valid(book_views(books@)) ==> decoded_books(text@) == Ok::<
            Seq<BookView>,
            DecodeError,
        >(book_views(books@)),
{
    let mut out: Vec<char> = Vec::new();
    let mut i: usize = 0;
    while i < books.len()
        invariant
            i <= books.len(),
            all_well_formed(book_views(books@)),
            out@ == encoded_books(book_views(books@).take(i as int)),
            all_read_back(book_views(books@).take(i as int)),
        decreases books.len() - i,
    {
        let ghost all = book_views(books@);
        assert(all.take(i + 1).drop_last() =~= all.take(i as int));
        assert(all.take(i + 1).last() == books@[i as int]@);
        let line = encode_book(&books[i]);
        push_all(&mut out, &chars_of(line.as_str()));
        i += 1;
    }
    assert(book_views(books@).take(books.len() as int) =~= book_views(books@));
    proof {
        if all_valid(book_views(books@)) {
            lemma_round_trip(book_views(books@));
        }
    }
    string_of(&out)
}

/// The text of a ledger: the lines of its loans in order.
pub fn encode_loans(loans: &Vec<Loan>) -> (text: String)
    ensures
        text@ == encoded_loans(loan_views(loans@)),
{
    let mut out: Vec<char> = Vec::new();
    let mut i: usize = 0;
    while i < loans.len()
        invariant
            i <= loans.len(),
            out@ == encoded_loans(loan_views(loans@).take(i as int)),
        decreases loans.len() - i,
    {
        let ghost all = loan_views(loans@);
        assert(all.take(i + 1).drop_last() =~= all.take(i as int));
        let line = encode_loan(&loans[i]);
        push_all(&mut out, &chars_of(line.as_str()));
        i += 1;
    }
    assert(loan_views(loans@).take(loans.len() as int) =~= loan_views(loans@));
    string_of(&out)
}

} // verus!
