//! The catalog model: line classification, the record builder as a fold
//! over lines, and the executable parser that follows it.

use crate::outside::{chars_of, delim_split, push_char, split_title};
use crate::text::{
    line_ranges, lines_of, parse_uint, trim, trim_range, uint_upto,
};
use vstd::prelude::*;

verus! {

/// A publication year, or an inclusive range of years.
#[derive(Debug, Clone, Copy, PartialEq, Eq, Structural, Default)]
pub struct Time {
    pub start: u16,
    pub end: u16,
}

/// One catalog entry.
#[derive(Debug, Clone, PartialEq, Default)]
pub struct Book {
    pub name: String,
    pub time: Time,
    pub isbn: Option<String>,
    pub pages: Option<usize>,
    pub genre: Option<String>,
    pub author: Option<String>,
}

/// A `Book` as values.
pub struct BookView {
    pub name: Seq<char>,
    pub time: Time,
    pub isbn: Option<Seq<char>>,
    pub pages: Option<usize>,
    pub genre: Option<Seq<char>>,
    pub author: Option<Seq<char>>,
}

/// An optional string as an optional sequence of characters.
pub open spec fn opt_view(o: Option<String>) -> Option<Seq<char>> {
    match o {
        Some(s) => Some(s@),
        None => None,
    }
}

impl View for Book {
    type V = BookView;

    open spec fn view(&self) -> BookView {
        BookView {
            name: self.name@,
            time: self.time,
            isbn: opt_view(self.isbn),
            pages: self.pages,
            genre: opt_view(self.genre),
            author: opt_view(self.author),
        }
    }
}

/// A line with a `key: value` shape whose key is not recognised.
#[derive(Debug, Clone, PartialEq)]
pub struct Warning {
    /// Line number, counted from 1.
    pub line: usize,
    /// The offending line, trimmed.
    pub text: String,
}

/// Why a parse was abandoned.
#[derive(Debug, Clone, Copy, PartialEq, Eq, Structural)]
pub enum ErrorKind {
    /// A metadata line came before any title line. This is fatal, like the
    /// other kinds: the line has no book to attach to.
    MissingCurrentBook,
    /// The value of a `Pages:` line is not a non-negative integer.
    MalformedPages,
    /// A year, or either side of a year range, is missing or not a year.
    MalformedYear,
    /// A title line has no title before its delimiter.
    MissingTitle,
}

/// A fatal condition, with the number (counted from 1) of the line it is on.
#[derive(Debug, Clone, Copy, PartialEq, Eq, Structural)]
pub struct ParseError {
    pub line: usize,
    pub kind: ErrorKind,
}

/// The recognised metadata keys.
#[derive(Debug, Clone, Copy, PartialEq, Eq, Structural)]
pub enum Field {
    Isbn,
    Genre,
    Pages,
    Author,
}

/// A key, in lower case, without its `:`.
pub open spec fn key_of(f: Field) -> Seq<char> {
    match f {
        Field::Isbn => seq!['i', 's', 'b', 'n'],
        Field::Genre => seq!['g', 'e', 'n', 'r', 'e'],
        Field::Pages => seq!['p', 'a', 'g', 'e', 's'],
        Field::Author => seq!['a', 'u', 't', 'h', 'o', 'r'],
    }
}

/// `c` is the lower-case ASCII letter `k` in either case. No other character
/// lowers to one of the letters of the keys, so this is the case-insensitive
/// comparison that lowering the line first would give.
pub open spec fn same_letter(c: char, k: char) -> bool {
    c == k || c as u32 + 32 == k as u32
}

/// `t` starts with the key of `f`, in any case, followed by `:`.
pub open spec fn has_key(t: Seq<char>, f: Field) -> bool {
    let k = key_of(f);
    &&& t.len() > k.len()
    &&& t[k.len() as int] == ':'
    &&& forall|j: int| 0 <= j < k.len() ==> same_letter(#[trigger] t[j], k[j])
}

/// The first key that a trimmed line starts with, tested in a fixed order.
pub open spec fn key_field(t: Seq<char>) -> Option<Field> {
    if has_key(t, Field::Isbn) {
        Some(Field::Isbn)
    } else if has_key(t, Field::Genre) {
        Some(Field::Genre)
    } else if has_key(t, Field::Pages) {
        Some(Field::Pages)
    } else if has_key(t, Field::Author) {
        Some(Field::Author)
    } else {
        None
    }
}

/// The index of the first `c` in `s` at or after `i`, or `s.len()` if none.
pub open spec fn first_index(s: Seq<char>, c: char, i: int) -> int
    decreases s.len() - i,
{
    if i >= s.len() {
        s.len() as int
    } else if s[i] == c {
        i
    } else {
        first_index(s, c, i + 1)
    }
}

/// What a physical line is.
pub enum LineKind {
    /// A recognised key and its trimmed value.
    Meta(Field, Seq<char>),
    /// A `:` line with no recognised key.
    Unknown,
    /// Empty or whitespace only.
    Blank,
    /// Anything else: the start of a new book.
    Title,
}

/// Classifies a line by its trimmed text: a recognised key first, then any
/// other `:`, then blank, else a title.
pub open spec fn kind_of(line: Seq<char>) -> LineKind {
    let t = trim(line);
    match key_field(t) {
        Some(f) => LineKind::Meta(f, trim(t.subrange(key_of(f).len() + 1 as int, t.len() as int))),
        None => if first_index(t, ':', 0) < t.len() {
            LineKind::Unknown
        } else if t.len() == 0 {
            LineKind::Blank
        } else {
            LineKind::Title
        },
    }
}

/// The line starts a new book.
pub open spec fn is_title(line: Seq<char>) -> bool {
    kind_of(line) is Title
}

/// The first non-empty piece, or an empty sequence if there is none.
pub open spec fn first_nonempty(ps: Seq<Seq<char>>) -> Seq<char>
    decreases ps.len(),
{
    if ps.len() == 0 {
        seq![]
    } else if ps[0].len() > 0 {
        ps[0]
    } else {
        first_nonempty(ps.drop_first())
    }
}

/// A year annotation: `Y`, or `Y1-Y2` split at the first `-`, each side
/// trimmed and read as a `u16`.
pub open spec fn time_of(ys: Seq<char>) -> Option<Time> {
    let k = first_index(ys, '-', 0);
    if k < ys.len() {
        match (
            uint_upto(trim(ys.subrange(0, k)), u16::MAX as nat),
            uint_upto(trim(ys.subrange(k + 1, ys.len() as int)), u16::MAX as nat),
        ) {
            (Some(a), Some(b)) => Some(Time { start: a as u16, end: b as u16 }),
            _ => None,
        }
    } else {
        match uint_upto(trim(ys), u16::MAX as nat) {
            Some(a) => Some(Time { start: a as u16, end: a as u16 }),
            None => None,
        }
    }
}

/// The book that a trimmed title line starts: the first delimited piece is
/// its name, the first later non-empty piece its year annotation.
pub open spec fn title_entry(t: Seq<char>) -> Result<BookView, ErrorKind> {
    let ps = delim_split(t);
    if ps.len() == 0 || ps[0].len() == 0 {
        Err(ErrorKind::MissingTitle)
    } else {
        match time_of(first_nonempty(ps.drop_first())) {
            Some(tm) => Ok(
                BookView {
                    name: ps[0],
                    time: tm,
                    isbn: None,
                    pages: None,
                    genre: None,
                    author: None,
                },
            ),
            None => Err(ErrorKind::MalformedYear),
        }
    }
}

/// `b` with the field `f` set from the value `v`.
pub open spec fn with_field(b: BookView, f: Field, v: Seq<char>) -> Result<BookView, ErrorKind> {
    match f {
        Field::Isbn => Ok(BookView { isbn: Some(v), ..b }),
        Field::Genre => Ok(BookView { genre: Some(v), ..b }),
        Field::Author => Ok(BookView { author: Some(v), ..b }),
        Field::Pages => match uint_upto(v, usize::MAX as nat) {
            Some(n) => Ok(BookView { pages: Some(n as usize), ..b }),
            None => Err(ErrorKind::MalformedPages),
        },
    }
}

/// The catalog after one more line.
pub open spec fn step(books: Seq<BookView>, line: Seq<char>) -> Result<Seq<BookView>, ErrorKind> {
    match kind_of(line) {
        LineKind::Meta(f, v) => if books.len() == 0 {
            Err(ErrorKind::MissingCurrentBook)
        } else {
            match with_field(books.last(), f, v) {
                Ok(b) => Ok(books.update(books.len() - 1, b)),
                Err(e) => Err(e),
            }
        },
        LineKind::Title => match title_entry(trim(line)) {
            Ok(b) => Ok(books.push(b)),
            Err(e) => Err(e),
        },
        _ => Ok(books),
    }
}

/// The catalog that a sequence of lines builds, or the first fatal
/// condition, with the index of its line.
pub open spec fn run(lines: Seq<Seq<char>>) -> Result<Seq<BookView>, (int, ErrorKind)>
    decreases lines.len(),
{
    if lines.len() == 0 {
        Ok(seq![])
    } else {
        match run(lines.drop_last()) {
            Err(e) => Err(e),
            Ok(bs) => match step(bs, lines.last()) {
                Ok(b2) => Ok(b2),
                Err(k) => Err((lines.len() - 1, k)),
            },
        }
    }
}

/// The unknown-key lines, with their indices, trimmed.
pub open spec fn warnings_in(lines: Seq<Seq<char>>) -> Seq<(int, Seq<char>)>
    decreases lines.len(),
{
    if lines.len() == 0 {
        seq![]
    } else if kind_of(lines.last()) is Unknown {
        warnings_in(lines.drop_last()).push((lines.len() - 1, trim(lines.last())))
    } else {
        warnings_in(lines.drop_last())
    }
}

} // verus!

verus! {

/// The parser's output: the books in title-line order, and the lines whose
/// key was not recognised.
#[derive(Debug, Clone, PartialEq)]
pub struct Books {
    pub inner: Vec<Book>,
    pub warnings: Vec<Warning>,
}

/// The books as values.
pub open spec fn views(bs: Seq<Book>) -> Seq<BookView> {
    bs.map_values(|b: Book| b@)
}

/// The warnings as (line index, trimmed text) pairs.
pub open spec fn warning_views(ws: Seq<Warning>) -> Seq<(int, Seq<char>)> {
    ws.map_values(|w: Warning| (w.line - 1, w.text@))
}

/// The catalog that a whole text describes.
pub open spec fn catalog_of(text: Seq<char>) -> Result<Seq<BookView>, (int, ErrorKind)> {
    run(lines_of(text))
}

/// Copies the range `lo..hi` of `v` into a `String`.
fn string_of(v: &Vec<char>, lo: usize, hi: usize) -> (r: String)
    requires
        lo <= hi <= v@.len(),
    ensures
        r@ == v@.subrange(lo as int, hi as int),
{
    let mut s = String::new();
    let mut i: usize = lo;
    while i < hi
        invariant
            lo <= i <= hi <= v@.len(),
            s@ == v@.subrange(lo as int, i as int),
        decreases hi - i,
    {
        push_char(&mut s, v[i]);
        assert(s@ =~= v@.subrange(lo as int, i + 1));
        i = i + 1;
    }
    s
}

/// Copies the range `lo..hi` of `v` into a new vector.
fn copy_range(v: &Vec<char>, lo: usize, hi: usize) -> (r: Vec<char>)
    requires
        lo <= hi <= v@.len(),
    ensures
        r@ == v@.subrange(lo as int, hi as int),
{
    let mut out: Vec<char> = Vec::new();
    let mut i: usize = lo;
    while i < hi
        invariant
            lo <= i <= hi <= v@.len(),
            out@ == v@.subrange(lo as int, i as int),
        decreases hi - i,
    {
        out.push(v[i]);
        assert(out@ =~= v@.subrange(lo as int, i + 1));
        i = i + 1;
    }
    out
}

/// The position of the first `c` in the range `lo..hi` of `v`, or `hi`.
fn find_char(v: &Vec<char>, lo: usize, hi: usize, c: char) -> (r: usize)
    requires
        lo <= hi <= v@.len(),
    ensures
        lo <= r <= hi,
        r - lo == first_index(v@.subrange(lo as int, hi as int), c, 0),
{
    let ghost s = v@.subrange(lo as int, hi as int);
    let mut i: usize = lo;
    while i < hi && v[i] != c
        invariant
            lo <= i <= hi <= v@.len(),
            s == v@.subrange(lo as int, hi as int),
            first_index(s, c, 0) == first_index(s, c, i - lo),
        decreases hi - i,
    {
        i = i + 1;
    }
    i
}

/// The key of `f`, in lower case.
fn key_text(f: Field) -> (r: Vec<char>)
    ensures
        r@ == key_of(f),
{
    let r = match f {
        Field::Isbn => vec!['i', 's', 'b', 'n'],
        Field::Genre => vec!['g', 'e', 'n', 'r', 'e'],
        Field::Pages => vec!['p', 'a', 'g', 'e', 's'],
        Field::Author => vec!['a', 'u', 't', 'h', 'o', 'r'],
    };
    assert(r@ =~= key_of(f));
    r
}

/// The range `lo..hi` of `v` starts with the key of `f` and a `:`.
fn matches_key(v: &Vec<char>, lo: usize, hi: usize, f: Field) -> (r: bool)
    requires
        lo <= hi <= v@.len(),
    ensures
        r == has_key(v@.subrange(lo as int, hi as int), f),
{
    let ghost t = v@.subrange(lo as int, hi as int);
    let k = key_text(f);
    if hi - lo <= k.len() {
        return false;
    }
    if v[lo + k.len()] != ':' {
        return false;
    }
    let mut j: usize = 0;
    while j < k.len()
        invariant
            lo + k@.len() < hi <= v@.len(),
            t == v@.subrange(lo as int, hi as int),
            k@ == key_of(f),
            j <= k@.len(),
            forall|m: int| 0 <= m < j ==> same_letter(#[trigger] t[m], k@[m]),
        decreases k@.len() - j,
    {
        let c = v[lo + j];
        let kc = k[j];
        if !(c == kc || (c as u32) as u64 + 32 == (kc as u32) as u64) {
            assert(!same_letter(t[j as int], k@[j as int]));
            return false;
        }
        j = j + 1;
    }
    true
}

/// The first key that the range `lo..hi` of `v` starts with.
fn key_at(v: &Vec<char>, lo: usize, hi: usize) -> (r: Option<Field>)
    requires
        lo <= hi <= v@.len(),
    ensures
        r == key_field(v@.subrange(lo as int, hi as int)),
{
    if matches_key(v, lo, hi, Field::Isbn) {
        Some(Field::Isbn)
    } else if matches_key(v, lo, hi, Field::Genre) {
        Some(Field::Genre)
    } else if matches_key(v, lo, hi, Field::Pages) {
        Some(Field::Pages)
    } else if matches_key(v, lo, hi, Field::Author) {
        Some(Field::Author)
    } else {
        None
    }
}

/// The number of characters in the key of `f`.
fn key_len(f: Field) -> (r: usize)
    ensures
        r == key_of(f).len(),
{
    match f {
        Field::Isbn => 4,
        Field::Genre => 5,
        Field::Pages => 5,
        Field::Author => 6,
    }
}

/// Reads a year annotation held in `v`.
pub fn time_from_chars(v: &Vec<char>) -> (r: Option<Time>)
    ensures
        r == time_of(v@),
{
    let n = v.len();
    let k = find_char(v, 0, n, '-');
    assert(v@.subrange(0, n as int) =~= v@);
    if k < n {
        let (a, b) = trim_range(v, 0, k);
        let (c, d) = trim_range(v, k + 1, n);
        let y1 = parse_uint(v, a, b, u16::MAX as u64);
        let y2 = parse_uint(v, c, d, u16::MAX as u64);
        match (y1, y2) {
            (Some(s), Some(e)) => Some(Time { start: s as u16, end: e as u16 }),
            _ => None,
        }
    } else {
        let (a, b) = trim_range(v, 0, n);
        match parse_uint(v, a, b, u16::MAX as u64) {
            Some(y) => Some(Time { start: y as u16, end: y as u16 }),
            None => None,
        }
    }
}

/// Reads a year annotation: `"2020"` is the year 2020, `"2017-2018"` (spaces
/// around the `-` allowed) the range from 2017 to 2018.
pub fn parse_time(ys: &str) -> (r: Option<Time>)
    ensures
        r == time_of(ys@),
{
    let v = chars_of(ys);
    time_from_chars(&v)
}

/// The book that the trimmed title line in the range `lo..hi` of `v` starts.
fn title_book(v: &Vec<char>, lo: usize, hi: usize) -> (r: Result<Book, ErrorKind>)
    requires
        lo <= hi <= v@.len(),
    ensures
        match r {
            Ok(b) => title_entry(v@.subrange(lo as int, hi as int)) == Ok::<BookView, ErrorKind>(b@),
            Err(e) => title_entry(v@.subrange(lo as int, hi as int)) == Err::<BookView, ErrorKind>(e),
        },
{
    let t = copy_range(v, lo, hi);
    let pieces = split_title(&t);
    let ghost ps = delim_split(t@);
    if pieces.len() == 0 || pieces[0].len() == 0 {
        return Err(ErrorKind::MissingTitle);
    }
    let mut j: usize = 1;
    while j < pieces.len() && pieces[j].len() == 0
        invariant
            1 <= j <= pieces@.len(),
            pieces@.len() == ps.len(),
            forall|k: int| 0 <= k < pieces@.len() ==> (#[trigger] pieces@[k])@ == ps[k],
            first_nonempty(ps.drop_first()) == first_nonempty(ps.subrange(j as int, ps.len() as int)),
        decreases pieces@.len() - j,
    {
        assert(ps.subrange(j as int, ps.len() as int).drop_first() =~= ps.subrange(
            j + 1,
            ps.len() as int,
        ));
        j = j + 1;
    }
    let time = if j < pieces.len() {
        assert(pieces@[j as int]@ == ps[j as int]);
        time_from_chars(&pieces[j])
    } else {
        let empty: Vec<char> = Vec::new();
        assert(ps.subrange(j as int, ps.len() as int) =~= Seq::<Seq<char>>::empty());
        time_from_chars(&empty)
    };
    match time {
        Some(tm) => {
            let name = string_of(&pieces[0], 0, pieces[0].len());
            assert(pieces@[0]@.subrange(0, pieces@[0]@.len() as int) =~= pieces@[0]@);
            Ok(Book { name, time: tm, isbn: None, pages: None, genre: None, author: None })
        },
        None => Err(ErrorKind::MalformedYear),
    }
}

} // verus!

verus! {

/// Once a prefix of the lines is fatal, so is the whole, with the same error.
pub proof fn lemma_run_stops(lines: Seq<Seq<char>>, n: int)
    requires
        0 <= n <= lines.len(),
        run(lines.take(n)) is Err,
    ensures
        run(lines) == run(lines.take(n)),
    decreases lines.len() - n,
{
    if n == lines.len() {
        assert(lines.take(n) =~= lines);
    } else {
        assert(lines.take(n + 1).drop_last() =~= lines.take(n));
        lemma_run_stops(lines, n + 1);
    }
}

/// Applies one line, the range `lo..hi` of `v` with index `idx`, to the
/// books and warnings built so far.
fn apply_line(
    books: &mut Vec<Book>,
    warnings: &mut Vec<Warning>,
    v: &Vec<char>,
    lo: usize,
    hi: usize,
    idx: usize,
) -> (r: Result<(), ErrorKind>)
    requires
        lo <= hi <= v@.len(),
        idx < usize::MAX,
    ensures
        match r {
            Ok(_) => {
                &&& step(views(old(books)@), v@.subrange(lo as int, hi as int)) == Ok::<
                    Seq<BookView>,
                    ErrorKind,
                >(views(final(books)@))
                &&& warning_views(final(warnings)@) == if kind_of(
                    v@.subrange(lo as int, hi as int),
                ) is Unknown {
                    warning_views(old(warnings)@).push(
                        (idx as int, trim(v@.subrange(lo as int, hi as int))),
                    )
                } else {
                    warning_views(old(warnings)@)
                }
            },
            Err(k) => step(views(old(books)@), v@.subrange(lo as int, hi as int)) == Err::<
                Seq<BookView>,
                ErrorKind,
            >(k),
        },
{
    let ghost line = v@.subrange(lo as int, hi as int);
    let (a, b) = trim_range(v, lo, hi);
    let ghost t = v@.subrange(a as int, b as int);
    assert(t == trim(line));
    match key_at(v, a, b) {
        Some(f) => {
            if books.len() == 0 {
                return Err(ErrorKind::MissingCurrentBook);
            }
            let kl = key_len(f);
            let (va, vb) = trim_range(v, a + kl + 1, b);
            assert(v@.subrange(a + kl + 1, b as int) =~= t.subrange(kl + 1, t.len() as int));
            let ghost old_views = views(books@);
            let mut book = books.pop().unwrap();
            assert(book@ == old_views.last());
            match f {
                Field::Pages => match parse_uint(v, va, vb, usize::MAX as u64) {
                    Some(n) => {
                        book.pages = Some(n as usize);
                    },
                    None => {
                        return Err(ErrorKind::MalformedPages);
                    },
                },
                Field::Isbn => {
                    book.isbn = Some(string_of(v, va, vb));
                },
                Field::Genre => {
                    book.genre = Some(string_of(v, va, vb));
                },
                Field::Author => {
                    book.author = Some(string_of(v, va, vb));
                },
            }
            books.push(book);
            assert(views(books@) =~= old_views.update(old_views.len() - 1, book@));
            Ok(())
        },
        None => {
            let c = find_char(v, a, b, ':');
            if c < b {
                let ghost before = warnings@;
                warnings.push(Warning { line: idx + 1, text: string_of(v, a, b) });
                assert(warning_views(warnings@) =~= warning_views(before).push((idx as int, t)));
                Ok(())
            } else if a < b {
                match title_book(v, a, b) {
                    Ok(bk) => {
                        let ghost before = books@;
                        books.push(bk);
                        assert(views(books@) =~= views(before).push(bk@));
                        Ok(())
                    },
                    Err(k) => Err(k),
                }
            } else {
                Ok(())
            }
        },
    }
}

impl Books {
    /// Parses the text of a `.books` file. On success the books and warnings
    /// are those that the lines of `input` build; otherwise the error names
    /// the first line (counted from 1) that is fatal and why.
    pub fn parse(input: &str) -> (r: Result<Books, ParseError>)
        ensures
            match r {
                Ok(bs) => {
                    &&& catalog_of(input@) == Ok::<Seq<BookView>, (int, ErrorKind)>(
                        views(bs.inner@),
                    )
                    &&& warning_views(bs.warnings@) == warnings_in(lines_of(input@))
                },
                Err(e) => catalog_of(input@) == Err::<Seq<BookView>, (int, ErrorKind)>(
                    (e.line - 1, e.kind),
                ),
            },
    {
        let v = chars_of(input);
        let ranges = line_ranges(&v);
        let ghost lines = lines_of(v@);
        let mut books: Vec<Book> = Vec::new();
        let mut warnings: Vec<Warning> = Vec::new();
        let mut i: usize = 0;
        assert(lines.take(0) =~= Seq::<Seq<char>>::empty());
        assert(views(books@) =~= Seq::<BookView>::empty());
        assert(warning_views(warnings@) =~= Seq::<(int, Seq<char>)>::empty());
        while i < ranges.len()
            invariant
                lines == lines_of(v@),
                v@ == input@,
                ranges@.len() == lines.len(),
                forall|k: int|
                    0 <= k < ranges@.len() ==> {
                        &&& (#[trigger] ranges@[k]).0 <= ranges@[k].1 <= v@.len()
                        &&& lines[k] == v@.subrange(ranges@[k].0 as int, ranges@[k].1 as int)
                    },
                i <= ranges@.len(),
                run(lines.take(i as int)) == Ok::<Seq<BookView>, (int, ErrorKind)>(views(books@)),
                warning_views(warnings@) == warnings_in(lines.take(i as int)),
            decreases ranges@.len() - i,
        {
            let (lo, hi) = ranges[i];
            assert(lines[i as int] == v@.subrange(lo as int, hi as int));
            assert(lines.take(i + 1).drop_last() =~= lines.take(i as int));
            assert(lines.take(i + 1).last() == lines[i as int]);
            match apply_line(&mut books, &mut warnings, &v, lo, hi, i) {
                Ok(_) => {},
                Err(k) => {
                    proof {
                        lemma_run_stops(lines, i + 1);
                    }
                    return Err(ParseError { line: i + 1, kind: k });
                },
            }
            i = i + 1;
        }
        assert(lines.take(i as int) =~= lines);
        Ok(Books { inner: books, warnings })
    }
}

} // verus!
