//! De-anonymisation: fake values in a text are put back to the original values
//! that the mapping store holds for them.

use crate::config::ConcealError;
use crate::mapping::{has_fake, MappingStore};
use crate::text::{
    chars_of, find_first, find_first_exec, lemma_find_first, lemma_replace_all_absent,
    lemma_replace_all_prefix, lemma_replace_all_single, matches_at, occurs, replace_all,
    replace_all_exec, string_of,
};
use vstd::prelude::*;
use vstd::utf8::encode_utf8;

verus! {

/// The length in bytes of the UTF-8 encoding of `s`, as `str::len` returns
/// it.
pub open spec fn byte_len(s: Seq<char>) -> usize {
    encode_utf8(s).len() as usize
}

/// `x` inserted into `sorted` after every pair whose fake value is at least
/// as long as its own.
pub open spec fn insert_by_len(x: (String, String), sorted: Seq<(String, String)>) -> Seq<(String, String)>
    decreases sorted.len(),
{
    if sorted.len() == 0 {
        seq![x]
    } else if byte_len(sorted[0].0@) >= byte_len(x.0@) {
        seq![sorted[0]] + insert_by_len(x, sorted.skip(1))
    } else {
        seq![x] + sorted
    }
}

/// The pairs sorted by the byte length of their fake value, longest first;
/// pairs of equal length keep their order (a stable sort).
pub open spec fn sort_by_fake_len(pairs: Seq<(String, String)>) -> Seq<(String, String)>
    decreases pairs.len(),
{
    if pairs.len() == 0 {
        pairs
    } else {
        insert_by_len(pairs.last(), sort_by_fake_len(pairs.drop_last()))
    }
}

/// One step of restoring: every occurrence of the pair's fake value replaced
/// by its original value, when the fake value occurs.
pub open spec fn restore_one(text: Seq<char>, pair: (String, String)) -> Seq<char> {
    if occurs(text, pair.0@) {
        replace_all(text, pair.0@, pair.1@)
    } else {
        text
    }
}

/// The pairs restored in turn, first to last.
pub open spec fn restore_all(text: Seq<char>, pairs: Seq<(String, String)>) -> Seq<char>
    decreases pairs.len(),
{
    if pairs.len() == 0 {
        text
    } else {
        restore_all(restore_one(text, pairs[0]), pairs.skip(1))
    }
}

/// What de-anonymising `text` against the fake-to-original pairs gives: the
/// pairs restored longest fake value first.
pub open spec fn deanonymized(text: Seq<char>, pairs: Seq<(String, String)>) -> Seq<char> {
    restore_all(text, sort_by_fake_len(pairs))
}

/// Inserting by length keeps exactly the elements and the new one.
proof fn lemma_insert_by_len_contains(x: (String, String), sorted: Seq<(String, String)>)
    ensures
        forall|e: (String, String)|
            #[trigger] insert_by_len(x, sorted).contains(e) <==> (e == x || sorted.contains(e)),
        insert_by_len(x, sorted).len() == sorted.len() + 1,
    decreases sorted.len(),
{
    if sorted.len() == 0 {
        assert(insert_by_len(x, sorted) =~= seq![x]);
        assert forall|e: (String, String)| #[trigger]
            insert_by_len(x, sorted).contains(e) <==> (e == x || sorted.contains(e)) by {
            if insert_by_len(x, sorted).contains(e) {
                let i = choose|i: int| 0 <= i < 1 && insert_by_len(x, sorted)[i] == e;
                assert(i == 0);
            }
            if e == x {
                assert(insert_by_len(x, sorted)[0] == e);
            }
        }
    } else if byte_len(sorted[0].0@) >= byte_len(x.0@) {
        let rest = sorted.skip(1);
        lemma_insert_by_len_contains(x, rest);
        let r = insert_by_len(x, sorted);
        assert(r == seq![sorted[0]] + insert_by_len(x, rest));
        assert forall|e: (String, String)| #[trigger] r.contains(e) <==> (e == x || sorted.contains(e)) by {
            if r.contains(e) {
                let i = choose|i: int| 0 <= i < r.len() && r[i] == e;
                if i == 0 {
                    assert(sorted[0] == e);
                } else {
                    assert(insert_by_len(x, rest)[i - 1] == e);
                    assert(insert_by_len(x, rest).contains(e));
                    if rest.contains(e) {
                        let j = choose|j: int| 0 <= j < rest.len() && rest[j] == e;
                        assert(sorted[j + 1] == e);
                    }
                }
            }
            if e == x {
                assert(insert_by_len(x, rest).contains(e));
                let j = choose|j: int|
                    0 <= j < insert_by_len(x, rest).len() && insert_by_len(x, rest)[j] == e;
                assert(r[j + 1] == e);
            }
            if sorted.contains(e) {
                let j = choose|j: int| 0 <= j < sorted.len() && sorted[j] == e;
                if j == 0 {
                    assert(r[0] == e);
                } else {
                    assert(rest[j - 1] == e);
                    assert(insert_by_len(x, rest).contains(e));
                    let k = choose|k: int|
                        0 <= k < insert_by_len(x, rest).len() && insert_by_len(x, rest)[k] == e;
                    assert(r[k + 1] == e);
                }
            }
        }
    } else {
        let r = insert_by_len(x, sorted);
        assert(r == seq![x] + sorted);
        assert forall|e: (String, String)| #[trigger] r.contains(e) <==> (e == x || sorted.contains(e)) by {
            if r.contains(e) {
                let i = choose|i: int| 0 <= i < r.len() && r[i] == e;
                if i > 0 {
                    assert(sorted[i - 1] == e);
                }
            }
            if e == x {
                assert(r[0] == e);
            }
            if sorted.contains(e) {
                let j = choose|j: int| 0 <= j < sorted.len() && sorted[j] == e;
                assert(r[j + 1] == e);
            }
        }
    }
}

/// Sorting keeps exactly the elements.
pub proof fn lemma_sort_contains(pairs: Seq<(String, String)>)
    ensures
        forall|e: (String, String)| #[trigger]
            sort_by_fake_len(pairs).contains(e) <==> pairs.contains(e),
        sort_by_fake_len(pairs).len() == pairs.len(),
    decreases pairs.len(),
{
    if pairs.len() > 0 {
        let init = pairs.drop_last();
        lemma_sort_contains(init);
        lemma_insert_by_len_contains(pairs.last(), sort_by_fake_len(init));
        assert forall|e: (String, String)| #[trigger]
            sort_by_fake_len(pairs).contains(e) <==> pairs.contains(e) by {
            if pairs.contains(e) {
                let j = choose|j: int| 0 <= j < pairs.len() && pairs[j] == e;
                if j < pairs.len() - 1 {
                    assert(init[j] == e);
                    assert(init.contains(e));
                }
            }
            if init.contains(e) {
                let j = choose|j: int| 0 <= j < init.len() && init[j] == e;
                assert(pairs[j] == e);
            }
            if e == pairs.last() {
                assert(pairs[pairs.len() - 1] == e);
            }
        }
    }
}

/// Restoring pairs none of whose fake values occur leaves the text as it is.
proof fn lemma_restore_unchanged(t: Seq<char>, q: Seq<(String, String)>, x: (String, String))
    requires
        !occurs(t, x.0@),
        forall|i: int| 0 <= i < q.len() ==> q[i] == x || !occurs(t, (#[trigger] q[i]).0@),
    ensures
        restore_all(t, q) == t,
    decreases q.len(),
{
    if q.len() > 0 {
        assert(restore_one(t, q[0]) == t);
        assert forall|i: int| 0 <= i < q.skip(1).len() implies q.skip(1)[i] == x || !occurs(
            t,
            (#[trigger] q.skip(1)[i]).0@,
        ) by {
            assert(q.skip(1)[i] == q[i + 1]);
        }
        lemma_restore_unchanged(t, q.skip(1), x);
    }
}

/// Restoring a list in which the pair `(f, o)` occurs, where `f` occurs once
/// in `a + f + b`, puts `o` in its place, provided the other pairs' fake
/// values occur neither before nor after.
proof fn lemma_restore_single(
    a: Seq<char>,
    b: Seq<char>,
    q: Seq<(String, String)>,
    x: (String, String),
)
    requires
        x.0@.len() > 0,
        forall|j: int| matches_at(a + x.0@ + b, x.0@, j) ==> j == a.len(),
        !occurs(a + x.1@ + b, x.0@),
        q.contains(x),
        forall|i: int|
            0 <= i < q.len() ==> q[i] == x || (!occurs(a + x.0@ + b, (#[trigger] q[i]).0@)
                && !occurs(a + x.1@ + b, q[i].0@)),
    ensures
        restore_all(a + x.0@ + b, q) == a + x.1@ + b,
    decreases q.len(),
{
    let t = a + x.0@ + b;
    let u = a + x.1@ + b;
    let rest = q.skip(1);
    if q[0] == x {
        assert(matches_at(t, x.0@, a.len() as int)) by {
            assert(t.subrange(a.len() as int, (a.len() + x.0@.len()) as int) =~= x.0@);
        }
        lemma_replace_all_single(a, x.0@, b, x.1@);
        assert(restore_one(t, q[0]) == u);
        assert forall|i: int| 0 <= i < rest.len() implies rest[i] == x || !occurs(
            u,
            (#[trigger] rest[i]).0@,
        ) by {
            assert(rest[i] == q[i + 1]);
        }
        lemma_restore_unchanged(u, rest, x);
    } else {
        assert(restore_one(t, q[0]) == t);
        let k = choose|k: int| 0 <= k < q.len() && q[k] == x;
        assert(k > 0);
        assert(rest[k - 1] == x);
        assert(rest.contains(x));
        assert forall|i: int|
            0 <= i < rest.len() implies rest[i] == x || (!occurs(t, (#[trigger] rest[i]).0@)
            && !occurs(u, rest[i].0@)) by {
            assert(rest[i] == q[i + 1]);
        }
        lemma_restore_single(a, b, rest, x);
    }
}

/// De-anonymising a text in which no stored fake value occurs returns the text
/// unchanged.
pub proof fn lemma_deanonymize_without_fakes(text: Seq<char>, pairs: Seq<(String, String)>)
    requires
        forall|i: int| 0 <= i < pairs.len() ==> !occurs(text, (#[trigger] pairs[i]).0@),
    ensures
        deanonymized(text, pairs) == text,
{
    let q = sort_by_fake_len(pairs);
    if pairs.len() == 0 {
        assert(q.len() == 0);
    } else {
        lemma_sort_contains(pairs);
        assert forall|i: int| 0 <= i < q.len() implies q[i] == pairs[0] || !occurs(
            text,
            (#[trigger] q[i]).0@,
        ) by {
            assert(q.contains(q[i]));
            assert(pairs.contains(q[i]));
            let j = choose|j: int| 0 <= j < pairs.len() && pairs[j] == q[i];
            assert(!occurs(text, pairs[j].0@));
        }
        assert(!occurs(text, pairs[0].0@));
        lemma_restore_unchanged(text, q, pairs[0]);
    }
}

/// De-anonymising a text `a + f + b` in which the stored fake value `f` occurs
/// exactly once, and no other stored fake value occurs, restores its original
/// `o`: the result is `a + o + b`. The pair `(f, o)` must be stored, `f`
/// must not reappear in `a + o + b`, and every stored pair other than
/// `(f, o)` must have a fake value that occurs neither in `a + f + b` nor in
/// `a + o + b`.
pub proof fn lemma_deanonymize_restores(
    a: Seq<char>,
    b: Seq<char>,
    pairs: Seq<(String, String)>,
    k: int,
)
    requires
        0 <= k < pairs.len(),
        pairs[k].0@.len() > 0,
        forall|j: int| matches_at(a + pairs[k].0@ + b, pairs[k].0@, j) ==> j == a.len(),
        !occurs(a + pairs[k].1@ + b, pairs[k].0@),
        forall|i: int|
            0 <= i < pairs.len() && pairs[i] != pairs[k] ==> !occurs(
                a + pairs[k].0@ + b,
                (#[trigger] pairs[i]).0@,
            ) && !occurs(a + pairs[k].1@ + b, pairs[i].0@),
    ensures
        deanonymized(a + pairs[k].0@ + b, pairs) == a + pairs[k].1@ + b,
{
    let x = pairs[k];
    let q = sort_by_fake_len(pairs);
    lemma_sort_contains(pairs);
    assert(pairs.contains(x));
    assert(q.contains(x));
    assert forall|i: int|
        0 <= i < q.len() implies q[i] == x || (!occurs(a + x.0@ + b, (#[trigger] q[i]).0@)
        && !occurs(a + x.1@ + b, q[i].0@)) by {
        assert(q.contains(q[i]));
        assert(pairs.contains(q[i]));
        let j = choose|j: int| 0 <= j < pairs.len() && pairs[j] == q[i];
        if q[i] != x {
            assert(pairs[j] != pairs[k]);
        }
    }
    lemma_restore_single(a, b, q, x);
}

// ---------------------------------------------------------------------------
// Texts made of pieces
// ---------------------------------------------------------------------------

/// How a piece `(fake form, original form)` reads once the fake values in
/// `restored` have been put back: its original form if its fake form is one
/// of them, its fake form otherwise. A piece left as it was has both forms
/// equal.
pub open spec fn piece_shown(p: (Seq<char>, Seq<char>), restored: Set<Seq<char>>) -> Seq<char> {
    if restored.contains(p.0) {
        p.1
    } else {
        p.0
    }
}

/// The text made of the pieces in turn, each read as [`piece_shown`] gives
/// it. With nothing restored it is the anonymised text.
pub open spec fn pieces_text(pieces: Seq<(Seq<char>, Seq<char>)>, restored: Set<Seq<char>>) -> Seq<
    char,
>
    decreases pieces.len(),
{
    if pieces.len() == 0 {
        Seq::empty()
    } else {
        piece_shown(pieces[0], restored) + pieces_text(pieces.skip(1), restored)
    }
}

/// The text made of the pieces' original forms in turn.
pub open spec fn originals_text(pieces: Seq<(Seq<char>, Seq<char>)>) -> Seq<char>
    decreases pieces.len(),
{
    if pieces.len() == 0 {
        Seq::empty()
    } else {
        pieces[0].1 + originals_text(pieces.skip(1))
    }
}

/// The position at which piece `k` starts in `pieces_text(pieces, restored)`.
pub open spec fn piece_start(pieces: Seq<(Seq<char>, Seq<char>)>, restored: Set<Seq<char>>, k: int) -> int {
    pieces_text(pieces.take(k), restored).len() as int
}

/// However many fake values have been put back, a stored fake value occurs
/// only where a piece shows it as its fake form and it has not been put back.
pub open spec fn fakes_only_in_place(pieces: Seq<(Seq<char>, Seq<char>)>, pairs: Seq<(String, String)>) -> bool {
    forall|restored: Set<Seq<char>>, i: int, j: int|
        0 <= i < pairs.len() && #[trigger] matches_at(pieces_text(pieces, restored), pairs[i].0@, j)
            ==> !restored.contains(pairs[i].0@) && exists|k: int|
            0 <= k < pieces.len() && pieces[k].0 == pairs[i].0@ && piece_start(pieces, restored, k)
                == j
}

/// A piece whose fake form is a stored fake value has that pair's original
/// as its original form; any other piece is left as it was.
pub open spec fn pieces_match_pairs(pieces: Seq<(Seq<char>, Seq<char>)>, pairs: Seq<(String, String)>) -> bool {
    &&& forall|k: int, i: int|
        #![trigger pieces[k], pairs[i]]
        0 <= k < pieces.len() && 0 <= i < pairs.len() && pieces[k].0 == pairs[i].0@ ==> pieces[k].1
            == pairs[i].1@
    &&& forall|k: int|
        0 <= k < pieces.len() && !has_fake(pairs, (#[trigger] pieces[k]).0) ==> pieces[k].0
            == pieces[k].1
}

/// The fake values of the pairs.
pub open spec fn fake_set(pairs: Seq<(String, String)>) -> Set<Seq<char>> {
    Set::new(|f: Seq<char>| has_fake(pairs, f))
}

/// The text of pieces laid end to end is the texts of the parts laid end to
/// end.
pub proof fn lemma_pieces_text_concat(
    a: Seq<(Seq<char>, Seq<char>)>,
    b: Seq<(Seq<char>, Seq<char>)>,
    restored: Set<Seq<char>>,
)
    ensures
        pieces_text(a + b, restored) == pieces_text(a, restored) + pieces_text(b, restored),
        originals_text(a + b) == originals_text(a) + originals_text(b),
    decreases a.len(),
{
    if a.len() == 0 {
        assert(a + b =~= b);
    } else {
        assert((a + b)[0] == a[0]);
        assert((a + b).skip(1) =~= a.skip(1) + b);
        lemma_pieces_text_concat(a.skip(1), b, restored);
    }
}

/// The text of a single piece.
pub proof fn lemma_pieces_text_single(p: (Seq<char>, Seq<char>), restored: Set<Seq<char>>)
    ensures
        pieces_text(seq![p], restored) == piece_shown(p, restored),
        originals_text(seq![p]) == p.1,
{
    let one = seq![p];
    assert(one.skip(1) =~= Seq::<(Seq<char>, Seq<char>)>::empty());
    assert(pieces_text(one.skip(1), restored) == Seq::<char>::empty());
    assert(originals_text(one.skip(1)) == Seq::<char>::empty());
    assert(piece_shown(p, restored) + Seq::<char>::empty() =~= piece_shown(p, restored));
    assert(p.1 + Seq::<char>::empty() =~= p.1);
}

/// Where piece `k` (not the first) starts, measured from the second piece.
proof fn lemma_piece_start_rest(pieces: Seq<(Seq<char>, Seq<char>)>, restored: Set<Seq<char>>, k: int)
    requires
        1 <= k <= pieces.len(),
    ensures
        piece_start(pieces, restored, k) == piece_shown(pieces[0], restored).len() + piece_start(
            pieces.skip(1),
            restored,
            k - 1,
        ),
{
    let t = pieces.take(k);
    assert(t[0] == pieces[0]);
    assert(t.skip(1) =~= pieces.skip(1).take(k - 1));
}

/// Replacing every occurrence of the fake value `g` by `og` in a text of
/// pieces, where `g` occurs only at the pieces that show it, puts `og` in
/// those pieces.
proof fn lemma_replace_in_pieces(
    pieces: Seq<(Seq<char>, Seq<char>)>,
    restored: Set<Seq<char>>,
    g: Seq<char>,
    og: Seq<char>,
)
    requires
        g.len() > 0,
        !restored.contains(g),
        forall|k: int| 0 <= k < pieces.len() && (#[trigger] pieces[k]).0 == g ==> pieces[k].1 == og,
        forall|j: int|
            #[trigger] matches_at(pieces_text(pieces, restored), g, j) ==> exists|k: int|
                0 <= k < pieces.len() && pieces[k].0 == g && piece_start(pieces, restored, k) == j,
    ensures
        replace_all(pieces_text(pieces, restored), g, og) == pieces_text(pieces, restored.insert(g)),
    decreases pieces.len(),
{
    if pieces.len() > 0 {
        let p0 = pieces[0];
        let rest = pieces.skip(1);
        let w = piece_shown(p0, restored);
        let x = pieces_text(rest, restored);
        let r2 = restored.insert(g);
        assert(pieces_text(pieces, restored) == w + x);
        assert(pieces_text(pieces, r2) == piece_shown(p0, r2) + pieces_text(rest, r2));
        assert(piece_start(pieces, restored, 0) == 0) by {
            assert(pieces.take(0).len() == 0);
        }
        assert forall|j: int| #[trigger] matches_at(x, g, j) implies exists|k: int|
            0 <= k < rest.len() && rest[k].0 == g && piece_start(rest, restored, k) == j by {
            assert((w + x).subrange(w.len() + j, w.len() + j + g.len()) =~= x.subrange(j, j + g.len()));
            assert(matches_at(w + x, g, w.len() + j));
            let k = choose|k: int|
                0 <= k < pieces.len() && pieces[k].0 == g && piece_start(pieces, restored, k) == w.len()
                    + j;
            if k == 0 {
                assert(w == g);
                assert(false);
            }
            lemma_piece_start_rest(pieces, restored, k);
            assert(rest[k - 1] == pieces[k]);
        }
        assert forall|k: int| 0 <= k < rest.len() && (#[trigger] rest[k]).0 == g implies rest[k].1
            == og by {
            assert(rest[k] == pieces[k + 1]);
        }
        lemma_replace_in_pieces(rest, restored, g, og);
        if p0.0 == g {
            assert(w == g);
            assert((w + x).take(g.len() as int) =~= g);
            assert((w + x).skip(g.len() as int) =~= x);
            assert(piece_shown(p0, r2) == og);
        } else {
            assert forall|j: int| 0 <= j < w.len() implies !matches_at(w + x, g, j) by {
                if matches_at(w + x, g, j) {
                    let k = choose|k: int|
                        0 <= k < pieces.len() && pieces[k].0 == g && piece_start(pieces, restored, k)
                            == j;
                    if k > 0 {
                        lemma_piece_start_rest(pieces, restored, k);
                    }
                }
            }
            lemma_replace_all_prefix(w, x, g, og);
            assert(r2.contains(p0.0) == restored.contains(p0.0));
        }
    }
}

/// One restoring step on a text of pieces puts the pair's original back in
/// the pieces that show its fake value.
proof fn lemma_restore_one_pieces(
    pieces: Seq<(Seq<char>, Seq<char>)>,
    pairs: Seq<(String, String)>,
    restored: Set<Seq<char>>,
    i: int,
)
    requires
        0 <= i < pairs.len(),
        pairs[i].0@.len() > 0,
        fakes_only_in_place(pieces, pairs),
        pieces_match_pairs(pieces, pairs),
    ensures
        restore_one(pieces_text(pieces, restored), pairs[i]) == pieces_text(
            pieces,
            restored.insert(pairs[i].0@),
        ),
{
    let g = pairs[i].0@;
    let og = pairs[i].1@;
    let t = pieces_text(pieces, restored);
    if restored.contains(g) {
        if occurs(t, g) {
            let j = choose|j: int| matches_at(t, g, j);
            assert(matches_at(pieces_text(pieces, restored), pairs[i].0@, j));
        }
        assert(restored.insert(g) =~= restored);
    } else {
        assert forall|k: int| 0 <= k < pieces.len() && (#[trigger] pieces[k]).0 == g implies pieces[k].1
            == og by {
            assert(pieces[k].0 == pairs[i].0@);
        }
        assert forall|j: int| #[trigger] matches_at(t, g, j) implies exists|k: int|
            0 <= k < pieces.len() && pieces[k].0 == g && piece_start(pieces, restored, k) == j by {
            assert(matches_at(pieces_text(pieces, restored), pairs[i].0@, j));
        }
        lemma_replace_in_pieces(pieces, restored, g, og);
        if !occurs(t, g) {
            lemma_replace_all_absent(t, g, og);
        }
    }
}

/// Restoring the pairs `q`, all of them stored pairs, in turn puts back every
/// fake value among them.
proof fn lemma_restore_all_pieces(
    pieces: Seq<(Seq<char>, Seq<char>)>,
    pairs: Seq<(String, String)>,
    q: Seq<(String, String)>,
    restored: Set<Seq<char>>,
)
    requires
        forall|x: (String, String)| #[trigger] q.contains(x) ==> pairs.contains(x),
        forall|i: int| 0 <= i < pairs.len() ==> (#[trigger] pairs[i]).0@.len() > 0,
        fakes_only_in_place(pieces, pairs),
        pieces_match_pairs(pieces, pairs),
    ensures
        restore_all(pieces_text(pieces, restored), q) == pieces_text(pieces, restored + fake_set(q)),
    decreases q.len(),
{
    if q.len() == 0 {
        assert(restored + fake_set(q) =~= restored);
    } else {
        assert(q.contains(q[0]));
        let i = choose|i: int| 0 <= i < pairs.len() && pairs[i] == q[0];
        lemma_restore_one_pieces(pieces, pairs, restored, i);
        let r2 = restored.insert(q[0].0@);
        let rest = q.skip(1);
        assert forall|x: (String, String)| #[trigger] rest.contains(x) implies pairs.contains(x) by {
            let j = choose|j: int| 0 <= j < rest.len() && rest[j] == x;
            assert(q[j + 1] == x);
            assert(q.contains(x));
        }
        lemma_restore_all_pieces(pieces, pairs, rest, r2);
        assert forall|f: Seq<char>| has_fake(q, f) <==> (q[0].0@ == f || has_fake(rest, f)) by {
            if has_fake(q, f) && q[0].0@ != f {
                let j = choose|j: int| 0 <= j < q.len() && (#[trigger] q[j]).0@ == f;
                assert(rest[j - 1] == q[j]);
            }
            if has_fake(rest, f) {
                let j = choose|j: int| 0 <= j < rest.len() && (#[trigger] rest[j]).0@ == f;
                assert(q[j + 1] == rest[j]);
            }
        }
        assert(r2 + fake_set(rest) =~= restored + fake_set(q));
    }
}

/// With every stored fake value put back, the pieces read as their originals.
proof fn lemma_pieces_all_restored(pieces: Seq<(Seq<char>, Seq<char>)>, pairs: Seq<(String, String)>)
    requires
        pieces_match_pairs(pieces, pairs),
    ensures
        pieces_text(pieces, fake_set(pairs)) == originals_text(pieces),
    decreases pieces.len(),
{
    if pieces.len() > 0 {
        let rest = pieces.skip(1);
        assert(pieces_match_pairs(rest, pairs)) by {
            assert forall|k: int, i: int|
                #![trigger rest[k], pairs[i]]
                0 <= k < rest.len() && 0 <= i < pairs.len() && rest[k].0 == pairs[i].0@ implies rest[k].1
                    == pairs[i].1@ by {
                assert(rest[k] == pieces[k + 1]);
                assert(pieces[k + 1].0 == pairs[i].0@);
            }
            assert forall|k: int|
                0 <= k < rest.len() && !has_fake(pairs, (#[trigger] rest[k]).0) implies rest[k].0
                    == rest[k].1 by {
                assert(rest[k] == pieces[k + 1]);
            }
        }
        lemma_pieces_all_restored(rest, pairs);
        let p0 = pieces[0];
        if has_fake(pairs, p0.0) {
            let i = choose|i: int| 0 <= i < pairs.len() && (#[trigger] pairs[i]).0@ == p0.0;
            assert(pieces[0].0 == pairs[i].0@);
        }
    }
}

/// De-anonymising a text made of pieces gives the text of their originals:
/// each piece shows either a stored fake value, in the place of the original
/// that the stored pair gives for it, or its own unchanged text that is no
/// stored fake value; every stored fake value is non-empty; and however many
/// fake values have been put back, a stored fake value occurs only where a
/// piece still shows it.
pub proof fn lemma_deanonymize_pieces(pieces: Seq<(Seq<char>, Seq<char>)>, pairs: Seq<(String, String)>)
    requires
        forall|i: int| 0 <= i < pairs.len() ==> (#[trigger] pairs[i]).0@.len() > 0,
        fakes_only_in_place(pieces, pairs),
        pieces_match_pairs(pieces, pairs),
    ensures
        deanonymized(pieces_text(pieces, Set::empty()), pairs) == originals_text(pieces),
{
    let q = sort_by_fake_len(pairs);
    lemma_sort_contains(pairs);
    lemma_restore_all_pieces(pieces, pairs, q, Set::empty());
    assert forall|f: Seq<char>| has_fake(q, f) <==> has_fake(pairs, f) by {
        if has_fake(q, f) {
            let j = choose|j: int| 0 <= j < q.len() && (#[trigger] q[j]).0@ == f;
            assert(q.contains(q[j]));
            assert(pairs.contains(q[j]));
        }
        if has_fake(pairs, f) {
            let j = choose|j: int| 0 <= j < pairs.len() && (#[trigger] pairs[j]).0@ == f;
            assert(pairs.contains(pairs[j]));
            assert(q.contains(pairs[j]));
        }
    }
    assert(Set::<Seq<char>>::empty() + fake_set(q) =~= fake_set(pairs));
    lemma_pieces_all_restored(pieces, pairs);
}

// ---------------------------------------------------------------------------
// Executable
// ---------------------------------------------------------------------------

/// `x` inserted into `sorted` after every pair whose fake value is at least
/// as long as its own.
fn insert_sorted(sorted: &mut Vec<(String, String)>, x: (String, String))
    ensures
        final(sorted)@ == insert_by_len(x, old(sorted)@),
{
    let xlen = x.0.as_str().len();
    let mut p: usize = 0;
    while p < sorted.len() && sorted[p].0.as_str().len() >= xlen
        invariant
            p <= sorted@.len(),
            sorted@ == old(sorted)@,
            xlen == byte_len(x.0@),
            forall|j: int| 0 <= j < p ==> byte_len((#[trigger] sorted@[j]).0@) >= byte_len(x.0@),
        decreases sorted@.len() - p,
    {
        p = p + 1;
    }
    proof {
        lemma_insert_at(x, sorted@, p as int);
    }
    sorted.insert(p, x);
}

/// Inserting by length puts `x` at the first position whose pair has a
/// shorter fake value.
proof fn lemma_insert_at(x: (String, String), s: Seq<(String, String)>, p: int)
    requires
        0 <= p <= s.len(),
        forall|j: int| 0 <= j < p ==> byte_len((#[trigger] s[j]).0@) >= byte_len(x.0@),
        p < s.len() ==> byte_len(s[p].0@) < byte_len(x.0@),
    ensures
        insert_by_len(x, s) == s.insert(p, x),
    decreases p,
{
    if s.len() == 0 {
        assert(s.insert(p, x) =~= seq![x]);
    } else if p == 0 {
        assert(s.insert(p, x) =~= seq![x] + s);
    } else {
        let rest = s.skip(1);
        assert forall|j: int| 0 <= j < p - 1 implies byte_len((#[trigger] rest[j]).0@) >= byte_len(
            x.0@,
        ) by {
            assert(rest[j] == s[j + 1]);
        }
        lemma_insert_at(x, rest, p - 1);
        assert(s.insert(p, x) =~= seq![s[0]] + rest.insert(p - 1, x));
    }
}

/// Replaces the fake values of the store in `text` by their original values,
/// longest fake value first. A text without any stored pair comes back as it
/// is.
pub fn deanonymize_text(text: &str, mapping_store: &MappingStore) -> (r: Result<String, ConcealError>)
    ensures
        match r {
            Ok(s) => s@ == deanonymized(text@, mapping_store.reverse_pairs()),
            Err(_) => false,
        },
{
    let reverse_entries = match mapping_store.get_all_reverse_entries() {
        Ok(v) => v,
        Err(e) => return Err(e),
    };
    let ghost pairs = reverse_entries@;
    if reverse_entries.len() == 0 {
        assert(sort_by_fake_len(pairs).len() == 0);
        return Ok(string_of(&chars_of(text)));
    }
    let mut sorted: Vec<(String, String)> = Vec::new();
    let mut i: usize = 0;
    let n = reverse_entries.len();
    let mut entries = reverse_entries;
    let mut taken: Vec<(String, String)> = Vec::new();
    while entries.len() > 0
        invariant
            entries@.len() + i == n,
            n == pairs.len(),
            entries@ == pairs.skip(i as int),
            sorted@ == sort_by_fake_len(pairs.take(i as int)),
        decreases entries@.len(),
    {
        let x = entries.remove(0);
        proof {
            assert(pairs.take(i + 1).drop_last() =~= pairs.take(i as int));
            assert(pairs.take(i + 1).last() == x);
            assert(entries@ =~= pairs.skip(i + 1));
        }
        insert_sorted(&mut sorted, x);
        i = i + 1;
    }
    assert(pairs.take(i as int) =~= pairs);
    let mut result = chars_of(text);
    let mut k: usize = 0;
    let ghost q = sorted@;
    assert(q.skip(0) =~= q);
    while k < sorted.len()
        invariant
            k <= sorted@.len(),
            q == sorted@,
            restore_all(result@, q.skip(k as int)) == restore_all(text@, q),
        decreases sorted@.len() - k,
    {
        let fake = chars_of(sorted[k].0.as_str());
        let original = chars_of(sorted[k].1.as_str());
        assert(q.skip(k as int).skip(1) =~= q.skip(k + 1));
        assert(q.skip(k as int)[0] == q[k as int]);
        proof {
            lemma_find_first(result@, fake@);
        }
        if find_first_exec(&result, &fake).is_some() {
            result = replace_all_exec(&result, &fake, &original);
        }
        k = k + 1;
    }
    assert(q.skip(k as int).len() == 0);
    Ok(string_of(&result))
}

} // verus!
