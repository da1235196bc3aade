//! Properties of the record builder that hold for every input, stated over
//! the line fold `run` that `Books::parse` is proved to follow.

use crate::catalog::{is_title, kind_of, run, title_entry, warnings_in, with_field, BookView, ErrorKind, Field, LineKind};
use crate::text::trim;
use vstd::prelude::*;

verus! {

/// The trimmed title lines among `lines`, in order.
pub open spec fn titles(lines: Seq<Seq<char>>) -> Seq<Seq<char>>
    decreases lines.len(),
{
    if lines.len() == 0 {
        seq![]
    } else if is_title(lines.last()) {
        titles(lines.drop_last()).push(trim(lines.last()))
    } else {
        titles(lines.drop_last())
    }
}

/// `b` has the name and year of the book that the trimmed title line `t`
/// starts.
pub open spec fn started_by(b: BookView, t: Seq<char>) -> bool {
    &&& title_entry(t) is Ok
    &&& b.name == title_entry(t)->Ok_0.name
    &&& b.time == title_entry(t)->Ok_0.time
}

/// The line `x` never changes the catalog: blank lines and unknown keys.
pub open spec fn is_inert(x: Seq<char>) -> bool {
    kind_of(x) is Unknown || kind_of(x) is Blank
}

/// The line `x` sets the field `f`.
pub open spec fn sets(x: Seq<char>, f: Field) -> bool {
    kind_of(x) matches LineKind::Meta(g, _) && g == f
}

/// Order is kept: the n-th book of a successful parse is the one that the
/// n-th title line starts, and there is one book per title line.
pub proof fn lemma_order_kept(lines: Seq<Seq<char>>)
    requires
        run(lines) is Ok,
    ensures
        run(lines)->Ok_0.len() == titles(lines).len(),
        forall|n: int|
            0 <= n < titles(lines).len() ==> started_by(
                #[trigger] run(lines)->Ok_0[n],
                titles(lines)[n],
            ),
    decreases lines.len(),
{
    if lines.len() > 0 {
        let pre = lines.drop_last();
        let x = lines.last();
        assert(run(pre) is Ok);
        lemma_order_kept(pre);
        let bs = run(pre)->Ok_0;
        match kind_of(x) {
            LineKind::Meta(f, v) => {
                let b = with_field(bs.last(), f, v)->Ok_0;
                assert(b.name == bs.last().name && b.time == bs.last().time);
                assert forall|n: int| 0 <= n < titles(lines).len() implies started_by(
                    #[trigger] run(lines)->Ok_0[n],
                    titles(lines)[n],
                ) by {
                    assert(started_by(bs[n], titles(pre)[n]));
                }
            },
            LineKind::Title => {
                assert forall|n: int| 0 <= n < titles(lines).len() implies started_by(
                    #[trigger] run(lines)->Ok_0[n],
                    titles(lines)[n],
                ) by {
                    if n < bs.len() {
                        assert(started_by(bs[n], titles(pre)[n]));
                    }
                }
            },
            _ => {},
        }
    }
}

/// A run of lines that are neither title lines nor lines setting `f` keeps
/// the last book's `f` at the value `v` gives it.
proof fn lemma_field_stays(pre: Seq<Seq<char>>, post: Seq<Seq<char>>, f: Field, v: Seq<char>)
    requires
        run(pre) matches Ok(bs) && bs.len() > 0 && with_field(bs.last(), f, v) == Ok::<
            BookView,
            ErrorKind,
        >(bs.last()),
        forall|k: int| 0 <= k < post.len() ==> !is_title(#[trigger] post[k]) && !sets(post[k], f),
    ensures
        run(pre + post) matches Ok(bs) ==> bs.len() > 0 && with_field(bs.last(), f, v) == Ok::<
            BookView,
            ErrorKind,
        >(bs.last()),
    decreases post.len(),
{
    if post.len() == 0 {
        assert(pre + post =~= pre);
    } else {
        let all = pre + post;
        assert(all.drop_last() =~= pre + post.drop_last());
        lemma_field_stays(pre, post.drop_last(), f, v);
        let x = post.last();
        assert(!is_title(x) && !sets(x, f));
        assert(all.last() == x);
        if run(all) is Ok {
            let bs = run(all.drop_last())->Ok_0;
            match kind_of(x) {
                LineKind::Meta(g, w) => {
                    let b = with_field(bs.last(), g, w)->Ok_0;
                    assert(run(all)->Ok_0 == bs.update(bs.len() - 1, b));
                    assert(g != f);
                },
                _ => {},
            }
        }
    }
}

/// The last book, when it has two lines with the same key and nothing follows
/// but lines that neither start a book nor set that key, holds the value of
/// the later line.
proof fn lemma_last_write_wins_at_end(
    pre: Seq<Seq<char>>,
    l1: Seq<char>,
    mid: Seq<Seq<char>>,
    l2: Seq<char>,
    post: Seq<Seq<char>>,
    f: Field,
)
    requires
        sets(l1, f),
        sets(l2, f),
        forall|k: int| 0 <= k < mid.len() ==> !is_title(#[trigger] mid[k]),
        forall|k: int| 0 <= k < post.len() ==> !is_title(#[trigger] post[k]) && !sets(post[k], f),
    ensures
        run(pre + seq![l1] + mid + seq![l2] + post) matches Ok(bs) ==> bs.len() > 0 && with_field(
            bs.last(),
            f,
            kind_of(l2)->Meta_1,
        ) == Ok::<BookView, ErrorKind>(bs.last()),
{
    let head = pre + seq![l1] + mid + seq![l2];
    let all = head + post;
    if run(all) is Ok {
        if run(head) is Err {
            lemma_run_prefix_err(head, post);
        }
        assert(head.drop_last() =~= pre + seq![l1] + mid);
        assert(head.last() == l2);
        let v = kind_of(l2)->Meta_1;
        let bs = run(head.drop_last())->Ok_0;
        let b = with_field(bs.last(), f, v)->Ok_0;
        assert(run(head)->Ok_0 =~= bs.update(bs.len() - 1, b));
        assert(with_field(b, f, v) == Ok::<BookView, ErrorKind>(b));
        lemma_field_stays(head, post, f, v);
    }
}

/// A fatal prefix makes the whole fatal.
proof fn lemma_run_prefix_err(a: Seq<Seq<char>>, b: Seq<Seq<char>>)
    requires
        run(a) is Err,
    ensures
        run(a + b) is Err,
    decreases b.len(),
{
    if b.len() == 0 {
        assert(a + b =~= a);
    } else {
        assert((a + b).drop_last() =~= a + b.drop_last());
        lemma_run_prefix_err(a, b.drop_last());
    }
}

/// Inserting a blank or unknown-key line anywhere changes neither whether the
/// parse succeeds nor the books it builds.
pub proof fn lemma_inert_line(pre: Seq<Seq<char>>, x: Seq<char>, post: Seq<Seq<char>>)
    requires
        is_inert(x),
    ensures
        run(pre + seq![x] + post) is Ok <==> run(pre + post) is Ok,
        run(pre + post) is Ok ==> run(pre + seq![x] + post) == run(pre + post),
    decreases post.len(),
{
    let a = pre + seq![x] + post;
    let b = pre + post;
    if post.len() == 0 {
        assert(a.drop_last() =~= pre);
        assert(b =~= pre);
    } else {
        lemma_inert_line(pre, x, post.drop_last());
        assert(a.drop_last() =~= pre + seq![x] + post.drop_last());
        assert(b.drop_last() =~= pre + post.drop_last());
    }
}

/// Warnings, once reported for a prefix, stay where they are.
proof fn lemma_warnings_kept(a: Seq<Seq<char>>, b: Seq<Seq<char>>)
    ensures
        warnings_in(a + b).len() >= warnings_in(a).len(),
        forall|k: int|
            0 <= k < warnings_in(a).len() ==> #[trigger] warnings_in(a + b)[k] == warnings_in(a)[k],
    decreases b.len(),
{
    if b.len() == 0 {
        assert(a + b =~= a);
    } else {
        assert((a + b).drop_last() =~= a + b.drop_last());
        lemma_warnings_kept(a, b.drop_last());
    }
}

/// An unknown `key: value` line is not fatal, changes no book, and is
/// reported as a warning with its index and trimmed text.
pub proof fn lemma_unknown_key(pre: Seq<Seq<char>>, x: Seq<char>, post: Seq<Seq<char>>)
    requires
        kind_of(x) is Unknown,
    ensures
        run(pre + seq![x] + post) is Ok <==> run(pre + post) is Ok,
        run(pre + post) is Ok ==> run(pre + seq![x] + post) == run(pre + post),
        warnings_in(pre + seq![x] + post).contains((pre.len() as int, trim(x))),
{
    lemma_inert_line(pre, x, post);
    let head = pre + seq![x];
    assert(head.drop_last() =~= pre);
    assert(head.last() == x);
    lemma_warnings_kept(head, post);
    let k = warnings_in(pre).len() as int;
    assert(warnings_in(head)[k] == (pre.len() as int, trim(x)));
    assert(warnings_in(pre + seq![x] + post)[k] == (pre.len() as int, trim(x)));
}

/// Any number of blank lines between two parts changes neither whether the
/// parse succeeds nor the books it builds.
pub proof fn lemma_blank_lines(pre: Seq<Seq<char>>, blanks: Seq<Seq<char>>, post: Seq<Seq<char>>)
    requires
        forall|k: int| 0 <= k < blanks.len() ==> kind_of(#[trigger] blanks[k]) is Blank,
    ensures
        run(pre + blanks + post) is Ok <==> run(pre + post) is Ok,
        run(pre + post) is Ok ==> run(pre + blanks + post) == run(pre + post),
    decreases blanks.len(),
{
    if blanks.len() == 0 {
        assert(pre + blanks =~= pre);
    } else {
        let rest = blanks.drop_first();
        assert(kind_of(blanks[0]) is Blank);
        lemma_blank_lines(pre, rest, post);
        lemma_inert_line(pre, blanks[0], rest + post);
        assert(pre + blanks + post =~= pre + seq![blanks[0]] + (rest + post));
        assert(pre + rest + post =~= pre + (rest + post));
    }
}

/// Later lines touch only the last book: every earlier one stays as it was.
proof fn lemma_earlier_books_kept(a: Seq<Seq<char>>, b: Seq<Seq<char>>)
    requires
        run(a) is Ok,
    ensures
        run(a + b) matches Ok(bs2) ==> {
            &&& bs2.len() >= run(a)->Ok_0.len()
            &&& forall|k: int|
                0 <= k < run(a)->Ok_0.len() - 1 ==> #[trigger] bs2[k] == run(a)->Ok_0[k]
        },
    decreases b.len(),
{
    if b.len() == 0 {
        assert(a + b =~= a);
    } else {
        assert((a + b).drop_last() =~= a + b.drop_last());
        lemma_earlier_books_kept(a, b.drop_last());
        if run(a + b) is Ok && run(a + b.drop_last()) is Err {
            lemma_run_prefix_err(a + b.drop_last(), seq![(a + b).last()]);
            assert(a + b.drop_last() + seq![(a + b).last()] =~= a + b);
        }
    }
}

/// A title line followed directly by another title line, or by the end of
/// the input, gives a book with no ISBN, page count, genre or author.
pub proof fn lemma_missing_metadata(pre: Seq<Seq<char>>, t: Seq<char>, post: Seq<Seq<char>>)
    requires
        is_title(t),
        post.len() == 0 || is_title(post[0]),
    ensures
        run(pre + seq![t] + post) matches Ok(bs) ==> {
            let n = titles(pre).len() as int;
            &&& n < bs.len()
            &&& bs[n].isbn is None
            &&& bs[n].pages is None
            &&& bs[n].genre is None
            &&& bs[n].author is None
        },
{
    let head = pre + seq![t];
    let all = head + post;
    assert(all == pre + seq![t] + post);
    if run(all) is Ok {
        if run(pre) is Err {
            lemma_run_prefix_err(pre, seq![t] + post);
            assert(pre + (seq![t] + post) =~= all);
        }
        if run(head) is Err {
            lemma_run_prefix_err(head, post);
        }
        lemma_order_kept(pre);
        let n = titles(pre).len() as int;
        assert(head.drop_last() =~= pre);
        assert(head.last() == t);
        assert(run(head)->Ok_0.len() == n + 1);
        assert(run(head)->Ok_0[n] == title_entry(trim(t))->Ok_0);
        if post.len() == 0 {
            assert(all =~= head);
        } else {
            let head2 = head + seq![post[0]];
            if run(head2) is Err {
                lemma_run_prefix_err(head2, post.drop_first());
                assert(head2 + post.drop_first() =~= all);
            }
            assert(head2.drop_last() =~= head);
            assert(head2.last() == post[0]);
            assert(run(head2)->Ok_0[n] == run(head)->Ok_0[n]);
            lemma_earlier_books_kept(head2, post.drop_first());
            assert(head2 + post.drop_first() =~= all);
            assert(run(all)->Ok_0[n] == run(head2)->Ok_0[n]);
        }
    }
}

/// Last write wins: when a book has two lines with the same key, its field
/// holds the value of the later one, whatever books follow it. The book is
/// the one started by the last title line of `pre + [l1] + mid + [l2] + post`;
/// `rest` is empty or begins with the next title line.
pub proof fn lemma_last_write_wins(
    pre: Seq<Seq<char>>,
    l1: Seq<char>,
    mid: Seq<Seq<char>>,
    l2: Seq<char>,
    post: Seq<Seq<char>>,
    rest: Seq<Seq<char>>,
    f: Field,
)
    requires
        sets(l1, f),
        sets(l2, f),
        forall|k: int| 0 <= k < mid.len() ==> !is_title(#[trigger] mid[k]),
        forall|k: int| 0 <= k < post.len() ==> !is_title(#[trigger] post[k]) && !sets(post[k], f),
        rest.len() == 0 || is_title(rest[0]),
    ensures
        run(pre + seq![l1] + mid + seq![l2] + post + rest) matches Ok(bs) ==> {
            let m = titles(pre + seq![l1] + mid + seq![l2] + post).len() - 1;
            &&& 0 <= m < bs.len()
            &&& with_field(bs[m], f, kind_of(l2)->Meta_1) == Ok::<BookView, ErrorKind>(bs[m])
        },
{
    let head = pre + seq![l1] + mid + seq![l2] + post;
    let all = head + rest;
    if run(all) is Ok {
        if run(head) is Err {
            lemma_run_prefix_err(head, rest);
        }
        lemma_last_write_wins_at_end(pre, l1, mid, l2, post, f);
        lemma_order_kept(head);
        let hb = run(head)->Ok_0;
        let m = titles(head).len() - 1;
        assert(m == hb.len() - 1);
        if rest.len() == 0 {
            assert(all =~= head);
        } else {
            let head2 = head + seq![rest[0]];
            if run(head2) is Err {
                lemma_run_prefix_err(head2, rest.drop_first());
                assert(head2 + rest.drop_first() =~= all);
            }
            assert(head2.drop_last() =~= head);
            assert(head2.last() == rest[0]);
            assert(run(head2)->Ok_0[m] == hb[m]);
            lemma_earlier_books_kept(head2, rest.drop_first());
            assert(head2 + rest.drop_first() =~= all);
            assert(run(all)->Ok_0[m] == run(head2)->Ok_0[m]);
        }
    }
}

} // verus!
