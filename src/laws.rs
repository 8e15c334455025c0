use vstd::prelude::*;

use crate::text::{
    escaped, fold_break, folded, is_line_break, no_line_breaks, occurs_at, replace_all, unescaped,
    unfolded, FOLD_WIDTH,
};

verus! {

/// Where the first character of the pattern never occurs, nothing is replaced.
pub proof fn lemma_replace_absent(s: Seq<char>, pat: Seq<char>, rep: Seq<char>)
    requires
        pat.len() > 0,
        forall|i: int| 0 <= i < s.len() ==> #[trigger] s[i] != pat[0],
    ensures
        replace_all(s, pat, rep) == s,
    decreases s.len(),
{
    if s.len() >= pat.len() {
        assert(s.subrange(0, pat.len() as int)[0] != pat[0]);
        let t = s.subrange(1, s.len() as int);
        assert forall|i: int| 0 <= i < t.len() implies #[trigger] t[i] != pat[0] by {
            assert(t[i] == s[i + 1]);
        }
        lemma_replace_absent(t, pat, rep);
        assert(seq![s[0]] + t =~= s);
    }
}

/// A prefix in which no match can start is kept as it is.
pub proof fn lemma_replace_prefix(x: Seq<char>, y: Seq<char>, pat: Seq<char>, rep: Seq<char>)
    requires
        pat.len() > 0,
        forall|i: int| 0 <= i < x.len() ==> #[trigger] x[i] != pat[0],
    ensures
        replace_all(x + y, pat, rep) == x + replace_all(y, pat, rep),
    decreases x.len(),
{
    if x.len() == 0 {
        assert(x + y =~= y);
        assert(x + replace_all(y, pat, rep) =~= replace_all(y, pat, rep));
    } else {
        let s = x + y;
        let x1 = x.subrange(1, x.len() as int);
        assert forall|i: int| 0 <= i < x1.len() implies #[trigger] x1[i] != pat[0] by {
            assert(x1[i] == x[i + 1]);
        }
        lemma_replace_prefix(x1, y, pat, rep);
        assert(s.subrange(1, s.len() as int) =~= x1 + y);
        if s.len() < pat.len() {
            assert(y.len() < pat.len());
            assert(replace_all(y, pat, rep) == y);
        } else {
            assert(s.subrange(0, pat.len() as int)[0] == x[0]);
            assert(seq![x[0]] + (x1 + replace_all(y, pat, rep)) =~= x + replace_all(y, pat, rep));
        }
    }
}

/// A match at the front is replaced.
pub proof fn lemma_replace_front(pat: Seq<char>, y: Seq<char>, rep: Seq<char>)
    requires
        pat.len() > 0,
    ensures
        replace_all(pat + y, pat, rep) == rep + replace_all(y, pat, rep),
{
    let s = pat + y;
    assert(s.subrange(0, pat.len() as int) =~= pat);
    assert(s.subrange(pat.len() as int, s.len() as int) =~= y);
}

proof fn lemma_remove_fold_breaks(s: Seq<char>)
    requires
        no_line_breaks(s),
    ensures
        replace_all(folded(s), fold_break(), Seq::empty()) == s,
    decreases s.len(),
{
    let pat = fold_break();
    if s.len() < FOLD_WIDTH {
        lemma_replace_absent(s, pat, Seq::empty());
    } else {
        let x = s.subrange(0, FOLD_WIDTH as int);
        let rest = s.subrange(FOLD_WIDTH as int, s.len() as int);
        assert forall|i: int| 0 <= i < rest.len() implies !is_line_break(#[trigger] rest[i]) by {
            assert(rest[i] == s[i + FOLD_WIDTH]);
        }
        assert forall|i: int| 0 <= i < x.len() implies #[trigger] x[i] != pat[0] by {
            assert(x[i] == s[i]);
        }
        lemma_remove_fold_breaks(rest);
        assert(folded(s) =~= x + (pat + folded(rest)));
        lemma_replace_prefix(x, pat + folded(rest), pat, Seq::empty());
        lemma_replace_front(pat, folded(rest), Seq::empty());
        assert(Seq::<char>::empty() + rest =~= rest);
        assert(x + rest =~= s);
    }
}

/// Unfolding undoes folding: for text without line breaks, `unfold(fold(s)) == s`.
pub proof fn law_unfold_fold(s: Seq<char>)
    requires
        no_line_breaks(s),
    ensures
        unfolded(folded(s)) == s,
{
    let e = Seq::<char>::empty();
    lemma_remove_fold_breaks(s);
    let pats = seq![seq!['\r', '\n', '\t'], seq!['\n', ' '], seq!['\n', '\t'], seq!['\r', ' '], seq!['\r', '\t']];
    assert forall|k: int| 0 <= k < pats.len() implies replace_all(s, #[trigger] pats[k], e) == s by {
        assert forall|i: int| 0 <= i < s.len() implies #[trigger] s[i] != pats[k][0] by {
            assert(!is_line_break(s[i]));
        }
        lemma_replace_absent(s, pats[k], e);
    }
    assert(replace_all(s, pats[0], e) == s);
    assert(replace_all(s, pats[1], e) == s);
    assert(replace_all(s, pats[2], e) == s);
    assert(replace_all(s, pats[3], e) == s);
    assert(replace_all(s, pats[4], e) == s);
}

/// No line break stands in `t` between positions `i` (included) and `j` (excluded).
pub open spec fn break_free(t: Seq<char>, i: int, j: int) -> bool {
    forall|k: int| i <= k < j ==> !is_line_break(#[trigger] t[k])
}

proof fn lemma_fold_segments_from(s: Seq<char>)
    ensures
        forall|j: int| 0 <= j <= folded(s).len() && break_free(folded(s), 0, j) ==> j <= FOLD_WIDTH,
        forall|i: int, j: int|
            0 <= i <= j <= folded(s).len() && break_free(folded(s), i, j) ==> j - i <= FOLD_WIDTH
                + 1,
    decreases s.len(),
{
    let t = folded(s);
    if s.len() >= FOLD_WIDTH {
        let x = s.subrange(0, FOLD_WIDTH as int);
        let rest = s.subrange(FOLD_WIDTH as int, s.len() as int);
        let f = folded(rest);
        lemma_fold_segments_from(rest);
        assert(t == x + fold_break() + f);
        let w = FOLD_WIDTH as int;
        assert(t[w] == '\r');
        assert(t[w + 1] == '\n');
        assert forall|j: int| 0 <= j <= t.len() && break_free(t, 0, j) implies j <= FOLD_WIDTH by {
            if j > w {
                assert(!is_line_break(t[w]));
            }
        }
        assert forall|i: int, j: int|
            0 <= i <= j <= t.len() && break_free(t, i, j) implies j - i <= FOLD_WIDTH + 1 by {
            if j > w && i <= w {
                assert(!is_line_break(t[w]));
            } else if j > w + 1 && i == w + 1 {
                assert(!is_line_break(t[w + 1]));
            } else if i == w + 2 && j > i {
                assert forall|k: int| 0 <= k < j - (w + 3) implies !is_line_break(#[trigger] f[k]) by {
                    assert(f[k] == t[k + w + 3]);
                }
                assert(break_free(f, 0, j - (w + 3)));
            } else if i > w + 2 {
                assert forall|k: int| i - (w + 3) <= k < j - (w + 3) implies !is_line_break(
                    #[trigger] f[k],
                ) by {
                    assert(f[k] == t[k + w + 3]);
                }
                assert(break_free(f, i - (w + 3), j - (w + 3)));
            }
        }
    }
}

/// Folding keeps lines short: in a folded text, a run of characters with no line break in it
/// is at most `FOLD_WIDTH` characters long, plus the space that begins a continuation line.
pub proof fn law_fold_segments(s: Seq<char>)
    ensures
        forall|i: int, j: int|
            0 <= i <= j <= folded(s).len() && break_free(folded(s), i, j) ==> j - i <= FOLD_WIDTH
                + 1,
{
    lemma_fold_segments_from(s);
}

/// `f` applied to each character of `s`, the results joined in order.
pub open spec fn flat(s: Seq<char>, f: spec_fn(char) -> Seq<char>) -> Seq<char>
    decreases s.len(),
{
    if s.len() == 0 {
        Seq::empty()
    } else {
        f(s[0]) + flat(s.drop_first(), f)
    }
}

/// A one-character pattern is replaced piece by piece.
proof fn lemma_replace_one_concat(x: Seq<char>, y: Seq<char>, p: char, rep: Seq<char>)
    ensures
        replace_all(x + y, seq![p], rep) == replace_all(x, seq![p], rep) + replace_all(
            y,
            seq![p],
            rep,
        ),
    decreases x.len(),
{
    let pat = seq![p];
    if x.len() == 0 {
        assert(x + y =~= y);
        assert(replace_all(x, pat, rep) + replace_all(y, pat, rep) =~= replace_all(y, pat, rep));
    } else {
        let s = x + y;
        let x1 = x.subrange(1, x.len() as int);
        lemma_replace_one_concat(x1, y, p, rep);
        assert(s.subrange(1, s.len() as int) =~= x1 + y);
        assert(s.subrange(0, 1) =~= seq![x[0]]);
        assert(x.subrange(0, 1) =~= seq![x[0]]);
        if x[0] == p {
            assert(rep + (replace_all(x1, pat, rep) + replace_all(y, pat, rep)) =~= (rep
                + replace_all(x1, pat, rep)) + replace_all(y, pat, rep));
        } else {
            assert(seq![x[0]][0] != pat[0]);
            assert(seq![x[0]] + (replace_all(x1, pat, rep) + replace_all(y, pat, rep)) =~= (seq![
                x[0],
            ] + replace_all(x1, pat, rep)) + replace_all(y, pat, rep));
        }
    }
}

proof fn lemma_replace_one_char(c: char, p: char, rep: Seq<char>)
    ensures
        replace_all(seq![c], seq![p], rep) == if c == p {
            rep
        } else {
            seq![c]
        },
{
    let x = seq![c];
    assert(x.subrange(0, 1) =~= x);
    assert(x.subrange(1, 1) =~= Seq::<char>::empty());
    assert(replace_all(Seq::<char>::empty(), seq![p], rep) == Seq::<char>::empty());
    assert(rep + Seq::<char>::empty() =~= rep);
    assert(x + Seq::<char>::empty() =~= x);
}

/// Replacing a single character in a joined sequence replaces it in each piece.
proof fn lemma_replace_one_flat(
    s: Seq<char>,
    f: spec_fn(char) -> Seq<char>,
    g: spec_fn(char) -> Seq<char>,
    p: char,
    rep: Seq<char>,
)
    requires
        forall|i: int| 0 <= i < s.len() ==> replace_all(f(#[trigger] s[i]), seq![p], rep) == g(s[i]),
    ensures
        replace_all(flat(s, f), seq![p], rep) == flat(s, g),
    decreases s.len(),
{
    if s.len() > 0 {
        let t = s.drop_first();
        assert forall|i: int| 0 <= i < t.len() implies replace_all(f(#[trigger] t[i]), seq![p], rep)
            == g(t[i]) by {
            assert(t[i] == s[i + 1]);
        }
        assert(replace_all(f(s[0]), seq![p], rep) == g(s[0]));
        lemma_replace_one_flat(s.drop_first(), f, g, p, rep);
        lemma_replace_one_concat(f(s[0]), flat(s.drop_first(), f), p, rep);
    }
}

/// The first piece `f(s[0])` of `flat(s, f)`, when it is not empty, starts the sequence.
proof fn lemma_flat_front(s: Seq<char>, f: spec_fn(char) -> Seq<char>)
    requires
        s.len() > 0,
        f(s[0]).len() > 0,
    ensures
        flat(s, f).len() > 0,
        flat(s, f)[0] == f(s[0])[0],
{
}

/// Pieces of one or two characters, and no piece that ends in `a` (other than `ab` itself)
/// followed by a piece starting with `b`: a two-character pattern `ab` is then replaced
/// exactly where a whole piece is `ab`.
pub open spec fn pair_ok(s: Seq<char>, f: spec_fn(char) -> Seq<char>, a: char, b: char) -> bool {
    &&& forall|i: int| 0 <= i < s.len() ==> 1 <= #[trigger] f(s[i]).len() <= 2
    &&& forall|i: int|
        0 <= i < s.len() - 1 && #[trigger] f(s[i]).len() == 1 && f(s[i])[0] == a ==> f(s[i + 1])[0]
            != b
    &&& forall|i: int|
        0 <= i < s.len() - 1 && #[trigger] f(s[i]).len() == 2 && f(s[i])[1] == a && f(s[i])
            != seq![a, b] ==> f(s[i + 1])[0] != b
}

proof fn lemma_replace_pair_flat(
    s: Seq<char>,
    f: spec_fn(char) -> Seq<char>,
    g: spec_fn(char) -> Seq<char>,
    a: char,
    b: char,
    rep: Seq<char>,
)
    requires
        pair_ok(s, f, a, b),
        forall|c: char| #[trigger] f(c) == seq![a, b] ==> g(c) == rep,
        forall|c: char| #[trigger] f(c) != seq![a, b] ==> g(c) == f(c),
    ensures
        replace_all(flat(s, f), seq![a, b], rep) == flat(s, g),
    decreases s.len(),
{
    let pat = seq![a, b];
    if s.len() > 0 {
        let t = s.drop_first();
        let x = f(s[0]);
        let r = flat(t, f);
        assert(pair_ok(t, f, a, b)) by {
            assert forall|i: int| 0 <= i < t.len() implies 1 <= #[trigger] f(t[i]).len() <= 2 by {
                assert(t[i] == s[i + 1]);
            }
            assert forall|i: int|
                0 <= i < t.len() - 1 && #[trigger] f(t[i]).len() == 1 && f(t[i])[0] == a implies f(
                t[i + 1],
            )[0] != b by {
                assert(t[i] == s[i + 1]);
                assert(t[i + 1] == s[i + 2]);
            }
            assert forall|i: int|
                0 <= i < t.len() - 1 && #[trigger] f(t[i]).len() == 2 && f(t[i])[1] == a && f(t[i])
                    != seq![a, b] implies f(t[i + 1])[0] != b by {
                assert(t[i] == s[i + 1]);
                assert(t[i + 1] == s[i + 2]);
            }
        }
        lemma_replace_pair_flat(t, f, g, a, b, rep);
        assert(f(s[0]).len() >= 1);
        let whole = x + r;
        assert(flat(s, f) == whole);
        if x == pat {
            lemma_replace_front(pat, r, rep);
        } else if x.len() == 1 {
            assert(whole.subrange(1, whole.len() as int) =~= r);
            if whole.len() >= 2 {
                if x[0] == a {
                    assert(t.len() > 0);
                    assert(f(s[1])[0] != b);
                    assert(f(t[0]).len() >= 1);
                    lemma_flat_front(t, f);
                    assert(whole.subrange(0, 2)[1] != b);
                } else {
                    assert(whole.subrange(0, 2)[0] != a);
                }
            }
            assert(x =~= seq![whole[0]]);
            assert(replace_all(r, pat, rep) == flat(t, g));
        } else {
            let mid = seq![x[1]] + r;
            assert(whole.subrange(1, whole.len() as int) =~= mid);
            assert(whole.subrange(0, 2) =~= x);
            assert(mid.subrange(1, mid.len() as int) =~= r);
            if x[1] == a && t.len() > 0 {
                assert(f(s[1])[0] != b);
                assert(f(t[0]).len() >= 1);
                lemma_flat_front(t, f);
                assert(mid.subrange(0, 2)[1] == r[0]);
            }
            if mid.len() >= 2 && x[1] != a {
                assert(mid.subrange(0, 2)[0] != a);
            }
            assert(replace_all(mid, pat, rep) == seq![x[1]] + replace_all(r, pat, rep));
            assert(seq![x[0]] + (seq![x[1]] + flat(t, g)) =~= x + flat(t, g));
        }
    }
}

spec fn keep() -> spec_fn(char) -> Seq<char> {
    |c: char| seq![c]
}

/// The escaping of backslashes alone.
spec fn esc_bs() -> spec_fn(char) -> Seq<char> {
    |c: char|
        if c == '\\' {
            seq!['\\', '\\']
        } else {
            seq![c]
        }
}

/// The escaping of backslashes and semicolons.
spec fn esc_bs_semi() -> spec_fn(char) -> Seq<char> {
    |c: char|
        if c == '\\' {
            seq!['\\', '\\']
        } else if c == ';' {
            seq!['\\', ';']
        } else {
            seq![c]
        }
}

/// The escaping of backslashes, semicolons and commas.
spec fn esc_all() -> spec_fn(char) -> Seq<char> {
    |c: char|
        if c == '\\' {
            seq!['\\', '\\']
        } else if c == ';' {
            seq!['\\', ';']
        } else if c == ',' {
            seq!['\\', ',']
        } else {
            seq![c]
        }
}

/// The escaping of backslashes, semicolons, commas and line feeds.
spec fn esc_nl() -> spec_fn(char) -> Seq<char> {
    |c: char|
        if c == '\\' {
            seq!['\\', '\\']
        } else if c == ';' {
            seq!['\\', ';']
        } else if c == ',' {
            seq!['\\', ',']
        } else if c == '\n' {
            seq!['\\', 'n']
        } else {
            seq![c]
        }
}

proof fn lemma_flat_keep(s: Seq<char>)
    ensures
        flat(s, keep()) == s,
    decreases s.len(),
{
    if s.len() > 0 {
        lemma_flat_keep(s.drop_first());
        assert(seq![s[0]] + s.drop_first() =~= s);
    }
}

proof fn lemma_replace_none(s: Seq<char>, pat: Seq<char>, rep: Seq<char>)
    requires
        pat.len() > 0,
        forall|i: int| 0 <= i < s.len() ==> !#[trigger] occurs_at(s, i, pat),
    ensures
        replace_all(s, pat, rep) == s,
    decreases s.len(),
{
    if s.len() >= pat.len() {
        assert(!occurs_at(s, 0, pat));
        let t = s.subrange(1, s.len() as int);
        assert forall|i: int| 0 <= i < t.len() implies !#[trigger] occurs_at(t, i, pat) by {
            assert(!occurs_at(s, i + 1, pat));
            if i + pat.len() <= t.len() {
                assert(t.subrange(i, i + pat.len()) =~= s.subrange(i + 1, i + 1 + pat.len()));
            }
        }
        lemma_replace_none(t, pat, rep);
        assert(seq![s[0]] + t =~= s);
    }
}

/// Text in which no carriage return is directly followed by a line feed, and no backslash by
/// `n` or `N`.
pub open spec fn plain_text(s: Seq<char>) -> bool {
    &&& forall|i: int|
        0 <= i < s.len() - 1 && #[trigger] s[i] == '\r' ==> s[i + 1] != '\n'
    &&& forall|i: int|
        0 <= i < s.len() - 1 && #[trigger] s[i] == '\\' ==> s[i + 1] != 'n' && s[i + 1] != 'N'
}

proof fn lemma_esc_all_not_crlf()
    ensures
        forall|c: char| #[trigger] esc_all()(c) != seq!['\r', '\n'],
{
    assert forall|c: char| #[trigger] esc_all()(c) != seq!['\r', '\n'] by {
        let x = esc_all()(c);
        if x.len() == 2 {
            assert(x[0] == '\\');
            assert(seq!['\r', '\n'][0] == '\r');
        } else {
            assert(x.len() == 1);
        }
    }
}

proof fn lemma_escaped_flat(s: Seq<char>)
    requires
        plain_text(s),
    ensures
        escaped(s) == flat(s, esc_nl()),
{
    let bsn = seq!['\\', 'N'];
    assert forall|i: int| 0 <= i < s.len() implies !#[trigger] occurs_at(s, i, bsn) by {
        if occurs_at(s, i, bsn) {
            assert(s.subrange(i, i + 2)[0] == s[i]);
            assert(s.subrange(i, i + 2)[1] == s[i + 1]);
        }
    }
    lemma_replace_none(s, bsn, seq!['\n']);
    lemma_flat_keep(s);
    assert forall|i: int| 0 <= i < s.len() implies replace_all(keep()(#[trigger] s[i]), seq!['\\'], seq!['\\', '\\']) == esc_bs()(s[i]) by {
        lemma_replace_one_char(s[i], '\\', seq!['\\', '\\']);
    }
    lemma_replace_one_flat(s, keep(), esc_bs(), '\\', seq!['\\', '\\']);
    assert forall|i: int| 0 <= i < s.len() implies replace_all(esc_bs()(#[trigger] s[i]), seq![';'], seq!['\\', ';']) == esc_bs_semi()(s[i]) by {
        let c = s[i];
        lemma_replace_one_char(c, ';', seq!['\\', ';']);
        lemma_replace_one_char('\\', ';', seq!['\\', ';']);
        lemma_replace_one_concat(seq!['\\'], seq!['\\'], ';', seq!['\\', ';']);
        assert(seq!['\\'] + seq!['\\'] =~= seq!['\\', '\\']);
    }
    lemma_replace_one_flat(s, esc_bs(), esc_bs_semi(), ';', seq!['\\', ';']);
    assert forall|i: int| 0 <= i < s.len() implies replace_all(esc_bs_semi()(#[trigger] s[i]), seq![','], seq!['\\', ',']) == esc_all()(s[i]) by {
        let c = s[i];
        lemma_replace_one_char(c, ',', seq!['\\', ',']);
        lemma_replace_one_char('\\', ',', seq!['\\', ',']);
        lemma_replace_one_char(';', ',', seq!['\\', ',']);
        lemma_replace_one_concat(seq!['\\'], seq!['\\'], ',', seq!['\\', ',']);
        lemma_replace_one_concat(seq!['\\'], seq![';'], ',', seq!['\\', ',']);
        assert(seq!['\\'] + seq!['\\'] =~= seq!['\\', '\\']);
        assert(seq!['\\'] + seq![';'] =~= seq!['\\', ';']);
    }
    lemma_replace_one_flat(s, esc_bs_semi(), esc_all(), ',', seq!['\\', ',']);
    let e0 = flat(s, esc_all());
    assert(pair_ok(s, esc_all(), '\r', '\n'));
    lemma_esc_all_not_crlf();
    lemma_replace_pair_flat(s, esc_all(), esc_all(), '\r', '\n', seq!['\\', 'n']);
    assert forall|i: int| 0 <= i < s.len() implies replace_all(esc_all()(#[trigger] s[i]), seq!['\n'], seq!['\\', 'n']) == esc_nl()(s[i]) by {
        let c = s[i];
        lemma_replace_one_char(c, '\n', seq!['\\', 'n']);
        lemma_replace_one_char('\\', '\n', seq!['\\', 'n']);
        lemma_replace_one_char(';', '\n', seq!['\\', 'n']);
        lemma_replace_one_char(',', '\n', seq!['\\', 'n']);
        lemma_replace_one_concat(seq!['\\'], seq!['\\'], '\n', seq!['\\', 'n']);
        lemma_replace_one_concat(seq!['\\'], seq![';'], '\n', seq!['\\', 'n']);
        lemma_replace_one_concat(seq!['\\'], seq![','], '\n', seq!['\\', 'n']);
        assert(seq!['\\'] + seq!['\\'] =~= seq!['\\', '\\']);
        assert(seq!['\\'] + seq![';'] =~= seq!['\\', ';']);
        assert(seq!['\\'] + seq![','] =~= seq!['\\', ',']);
    }
    lemma_replace_one_flat(s, esc_all(), esc_nl(), '\n', seq!['\\', 'n']);
}

proof fn lemma_esc_nl_not_crlf()
    ensures
        forall|c: char| #[trigger] esc_nl()(c) != seq!['\r', '\n'],
{
    assert forall|c: char| #[trigger] esc_nl()(c) != seq!['\r', '\n'] by {
        let x = esc_nl()(c);
        if x.len() == 2 {
            assert(x[0] == '\\');
            assert(seq!['\r', '\n'][0] == '\r');
        } else {
            assert(x.len() == 1);
        }
    }
}

proof fn lemma_unescaped_flat(s: Seq<char>)
    requires
        plain_text(s),
    ensures
        unescaped(flat(s, esc_nl())) == s,
{
    assert(pair_ok(s, esc_nl(), '\\', 'N'));
    lemma_replace_pair_flat(s, esc_nl(), esc_nl(), '\\', 'N', seq!['\\', 'n']);
    assert(pair_ok(s, esc_nl(), '\r', '\n'));
    lemma_esc_nl_not_crlf();
    lemma_replace_pair_flat(s, esc_nl(), esc_nl(), '\r', '\n', seq!['\n']);
    assert(pair_ok(s, esc_nl(), '\\', 'n'));
    lemma_replace_pair_flat(s, esc_nl(), esc_all(), '\\', 'n', seq!['\n']);
    assert(pair_ok(s, esc_all(), '\\', ','));
    lemma_replace_pair_flat(s, esc_all(), esc_bs_semi(), '\\', ',', seq![',']);
    assert(pair_ok(s, esc_bs_semi(), '\\', ';'));
    lemma_replace_pair_flat(s, esc_bs_semi(), esc_bs(), '\\', ';', seq![';']);
    assert(pair_ok(s, esc_bs(), '\\', '\\'));
    lemma_replace_pair_flat(s, esc_bs(), keep(), '\\', '\\', seq!['\\']);
    lemma_flat_keep(s);
}

/// Unescaping undoes escaping: `unescape(escape(s)) == s` for text in which no carriage return
/// is directly followed by a line feed (escaping turns the pair into one line break) and no
/// backslash is followed by `n` or `N` (escaping reads such a pair as a line break). This
/// covers all text free of control characters, and text holding `;`, `,` and real line feeds.
pub proof fn law_unescape_escape(s: Seq<char>)
    requires
        plain_text(s),
    ensures
        unescaped(escaped(s)) == s,
{
    lemma_escaped_flat(s);
    lemma_unescaped_flat(s);
}

} // verus!
