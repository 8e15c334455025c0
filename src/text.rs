use vstd::prelude::*;

verus! {

/// Relies on `String::push`: the character is appended at the end.
pub assume_specification[ String::push ](s: &mut String, ch: char)
    ensures
        final(s)@ == old(s)@.push(ch),
;

/// The characters of `s`, in order.
pub fn chars_of(s: &str) -> (r: Vec<char>)
    ensures
        r@ == s@,
{
    let n = s.unicode_len();
    let mut out: Vec<char> = Vec::new();
    let mut i: usize = 0;
    while i < n
        invariant
            n == s@.len(),
            i <= n,
            out@ == s@.subrange(0, i as int),
        decreases n - i,
    {
        out.push(s.get_char(i));
        i = i + 1;
    }
    assert(out@ =~= s@);
    out
}

/// A string holding the characters of `v`, in order.
pub fn string_of(v: &Vec<char>) -> (r: String)
    ensures
        r@ == v@,
{
    let mut out = String::new();
    let mut i: usize = 0;
    while i < v.len()
        invariant
            i <= v@.len(),
            out@ == v@.subrange(0, i as int),
        decreases v@.len() - i,
    {
        out.push(v[i]);
        i = i + 1;
        assert(out@ =~= v@.subrange(0, i as int));
    }
    assert(out@ =~= v@);
    out
}

/// A carriage return or a line feed.
pub open spec fn is_line_break(c: char) -> bool {
    c == '\r' || c == '\n'
}

/// `s` holds no carriage return and no line feed.
pub open spec fn no_line_breaks(s: Seq<char>) -> bool {
    forall|i: int| 0 <= i < s.len() ==> !is_line_break(#[trigger] s[i])
}

/// Does `pat` occur in `s` at position `i`?
pub open spec fn occurs_at(s: Seq<char>, i: int, pat: Seq<char>) -> bool {
    0 <= i && i + pat.len() <= s.len() && s.subrange(i, i + pat.len()) == pat
}

/// Every non-overlapping occurrence of `pat` in `s`, found from left to right, replaced by `rep`.
pub open spec fn replace_all(s: Seq<char>, pat: Seq<char>, rep: Seq<char>) -> Seq<char>
    decreases s.len(),
{
    if pat.len() == 0 || s.len() < pat.len() {
        s
    } else if s.subrange(0, pat.len() as int) == pat {
        rep + replace_all(s.subrange(pat.len() as int, s.len() as int), pat, rep)
    } else {
        seq![s[0]] + replace_all(s.subrange(1, s.len() as int), pat, rep)
    }
}

pub(crate) fn occurs_at_exec(s: &Vec<char>, i: usize, pat: &Vec<char>) -> (r: bool)
    requires
        i <= s@.len(),
    ensures
        r == occurs_at(s@, i as int, pat@),
{
    if pat.len() > s.len() - i {
        return false;
    }
    let mut k: usize = 0;
    while k < pat.len()
        invariant
            i + pat@.len() <= s@.len(),
            s@.len() <= usize::MAX,
            k <= pat@.len(),
            forall|j: int| 0 <= j < k ==> s@[i + j] == pat@[j],
        decreases pat@.len() - k,
    {
        if s[i + k] != pat[k] {
            assert(s@.subrange(i as int, i + pat@.len())[k as int] != pat@[k as int]);
            return false;
        }
        k = k + 1;
    }
    assert(s@.subrange(i as int, i + pat@.len()) =~= pat@);
    true
}

/// `replace_all` of a suffix, unfolded one step.
proof fn lemma_replace_step(s: Seq<char>, i: int, pat: Seq<char>, rep: Seq<char>)
    requires
        0 <= i < s.len(),
        pat.len() > 0,
    ensures
        occurs_at(s, i, pat) ==> replace_all(s.subrange(i, s.len() as int), pat, rep) == rep
            + replace_all(s.subrange(i + pat.len(), s.len() as int), pat, rep),
        !occurs_at(s, i, pat) ==> replace_all(s.subrange(i, s.len() as int), pat, rep) == seq![
            s[i],
        ] + replace_all(s.subrange(i + 1, s.len() as int), pat, rep),
{
    let t = s.subrange(i, s.len() as int);
    if t.len() >= pat.len() {
        assert(t.subrange(0, pat.len() as int) =~= s.subrange(i, i + pat.len()));
        assert(t.subrange(pat.len() as int, t.len() as int) =~= s.subrange(
            i + pat.len(),
            s.len() as int,
        ));
    } else {
        assert(!occurs_at(s, i, pat));
        assert(s.subrange(i + 1, s.len() as int) =~= t.subrange(1, t.len() as int));
        lemma_replace_short(t.subrange(1, t.len() as int), pat, rep);
        assert(t =~= seq![s[i]] + t.subrange(1, t.len() as int));
    }
    assert(t.subrange(1, t.len() as int) =~= s.subrange(i + 1, s.len() as int));
}

proof fn lemma_replace_short(s: Seq<char>, pat: Seq<char>, rep: Seq<char>)
    requires
        s.len() < pat.len(),
    ensures
        replace_all(s, pat, rep) == s,
{
}

/// Replaces every non-overlapping occurrence of `pat`, leftmost first, by `rep`.
pub fn replace(s: &Vec<char>, pat: &Vec<char>, rep: &Vec<char>) -> (r: Vec<char>)
    requires
        pat@.len() > 0,
    ensures
        r@ == replace_all(s@, pat@, rep@),
{
    let mut out: Vec<char> = Vec::new();
    let mut i: usize = 0;
    assert(s@.subrange(0, s@.len() as int) =~= s@);
    assert(out@ + replace_all(s@, pat@, rep@) =~= replace_all(s@, pat@, rep@));
    while i < s.len()
        invariant
            pat@.len() > 0,
            i <= s@.len(),
            out@ + replace_all(s@.subrange(i as int, s@.len() as int), pat@, rep@) == replace_all(
                s@,
                pat@,
                rep@,
            ),
        decreases s@.len() - i,
    {
        proof {
            lemma_replace_step(s@, i as int, pat@, rep@);
        }
        if occurs_at_exec(s, i, pat) {
            let mut k: usize = 0;
            let ghost before = out@;
            while k < rep.len()
                invariant
                    k <= rep@.len(),
                    out@ == before + rep@.subrange(0, k as int),
                decreases rep@.len() - k,
            {
                out.push(rep[k]);
                k = k + 1;
                assert(out@ =~= before + rep@.subrange(0, k as int));
            }
            assert(out@ =~= before + rep@);
            assert((before + rep@) + replace_all(
                s@.subrange(i + pat@.len(), s@.len() as int),
                pat@,
                rep@,
            ) =~= before + (rep@ + replace_all(
                s@.subrange(i + pat@.len(), s@.len() as int),
                pat@,
                rep@,
            )));
            i = i + pat.len();
        } else {
            let ghost before = out@;
            out.push(s[i]);
            assert(out@ + replace_all(s@.subrange(i + 1, s@.len() as int), pat@, rep@) =~= before
                + (seq![s@[i as int]] + replace_all(
                s@.subrange(i + 1, s@.len() as int),
                pat@,
                rep@,
            )));
            i = i + 1;
        }
    }
    assert(s@.subrange(i as int, s@.len() as int) =~= Seq::<char>::empty());
    assert(out@ =~= out@ + Seq::<char>::empty());
    out
}

/// The escaped (wire) form of a logical property value.
pub open spec fn escaped(s: Seq<char>) -> Seq<char> {
    let s1 = replace_all(s, seq!['\\', 'N'], seq!['\n']);
    let s2 = replace_all(s1, seq!['\\'], seq!['\\', '\\']);
    let s3 = replace_all(s2, seq![';'], seq!['\\', ';']);
    let s4 = replace_all(s3, seq![','], seq!['\\', ',']);
    let s5 = replace_all(s4, seq!['\r', '\n'], seq!['\\', 'n']);
    replace_all(s5, seq!['\n'], seq!['\\', 'n'])
}

/// The logical value of an escaped property value.
pub open spec fn unescaped(s: Seq<char>) -> Seq<char> {
    let s1 = replace_all(s, seq!['\\', 'N'], seq!['\\', 'n']);
    let s2 = replace_all(s1, seq!['\r', '\n'], seq!['\n']);
    let s3 = replace_all(s2, seq!['\\', 'n'], seq!['\n']);
    let s4 = replace_all(s3, seq!['\\', ','], seq![',']);
    let s5 = replace_all(s4, seq!['\\', ';'], seq![';']);
    replace_all(s5, seq!['\\', '\\'], seq!['\\'])
}

/// Text with its soft line breaks (a line break followed by a space or a tab) removed.
pub open spec fn unfolded(s: Seq<char>) -> Seq<char> {
    let e = Seq::<char>::empty();
    let s1 = replace_all(s, seq!['\r', '\n', ' '], e);
    let s2 = replace_all(s1, seq!['\r', '\n', '\t'], e);
    let s3 = replace_all(s2, seq!['\n', ' '], e);
    let s4 = replace_all(s3, seq!['\n', '\t'], e);
    let s5 = replace_all(s4, seq!['\r', ' '], e);
    replace_all(s5, seq!['\r', '\t'], e)
}

/// The width of a folded line.
pub const FOLD_WIDTH: usize = 75;

/// The soft line break that folding inserts.
pub open spec fn fold_break() -> Seq<char> {
    seq!['\r', '\n', ' ']
}

/// `s` with a soft line break after every `FOLD_WIDTH`-th character.
pub open spec fn folded(s: Seq<char>) -> Seq<char>
    decreases s.len(),
{
    if s.len() < FOLD_WIDTH {
        s
    } else {
        s.subrange(0, FOLD_WIDTH as int) + fold_break() + folded(
            s.subrange(FOLD_WIDTH as int, s.len() as int),
        )
    }
}

fn one(a: char) -> (r: Vec<char>)
    ensures
        r@ == seq![a],
{
    let r = vec![a];
    assert(r@ =~= seq![a]);
    r
}

fn two(a: char, b: char) -> (r: Vec<char>)
    ensures
        r@ == seq![a, b],
{
    let r = vec![a, b];
    assert(r@ =~= seq![a, b]);
    r
}

fn three(a: char, b: char, c: char) -> (r: Vec<char>)
    ensures
        r@ == seq![a, b, c],
{
    let r = vec![a, b, c];
    assert(r@ =~= seq![a, b, c]);
    r
}

/// Escape text for a property value.
pub fn escape_chars(s: &str) -> (r: String)
    ensures
        r@ == escaped(s@),
{
    let v = chars_of(s);
    let v = replace(&v, &two('\\', 'N'), &one('\n'));
    let v = replace(&v, &one('\\'), &two('\\', '\\'));
    let v = replace(&v, &one(';'), &two('\\', ';'));
    let v = replace(&v, &one(','), &two('\\', ','));
    let v = replace(&v, &two('\r', '\n'), &two('\\', 'n'));
    let v = replace(&v, &one('\n'), &two('\\', 'n'));
    string_of(&v)
}

/// Unescape text from a property value.
pub fn unescape_chars(s: &str) -> (r: String)
    ensures
        r@ == unescaped(s@),
{
    let v = chars_of(s);
    let v = replace(&v, &two('\\', 'N'), &two('\\', 'n'));
    let v = replace(&v, &two('\r', '\n'), &one('\n'));
    let v = replace(&v, &two('\\', 'n'), &one('\n'));
    let v = replace(&v, &two('\\', ','), &one(','));
    let v = replace(&v, &two('\\', ';'), &one(';'));
    let v = replace(&v, &two('\\', '\\'), &one('\\'));
    string_of(&v)
}

/// Unfold content lines: remove every line break that is followed by a space or a tab,
/// together with that space or tab.
pub fn unfold_chars(v: &Vec<char>) -> (r: Vec<char>)
    ensures
        r@ == unfolded(v@),
{
    let e: Vec<char> = Vec::new();
    let v = replace(v, &three('\r', '\n', ' '), &e);
    let v = replace(&v, &three('\r', '\n', '\t'), &e);
    let v = replace(&v, &two('\n', ' '), &e);
    let v = replace(&v, &two('\n', '\t'), &e);
    let v = replace(&v, &two('\r', ' '), &e);
    let v = replace(&v, &two('\r', '\t'), &e);
    assert(e@ =~= Seq::<char>::empty());
    v
}

/// Unfold content lines.
pub fn unfold_lines(s: &str) -> (r: String)
    ensures
        r@ == unfolded(s@),
{
    let v = chars_of(s);
    string_of(&unfold_chars(&v))
}

/// Appends `v[from..to]` to `out`.
pub(crate) fn push_range(out: &mut Vec<char>, v: &Vec<char>, from: usize, to: usize)
    requires
        from <= to <= v@.len(),
    ensures
        final(out)@ == old(out)@ + v@.subrange(from as int, to as int),
{
    let mut k: usize = from;
    while k < to
        invariant
            from <= k <= to,
            to <= v@.len(),
            out@ == old(out)@ + v@.subrange(from as int, k as int),
        decreases to - k,
    {
        out.push(v[k]);
        k = k + 1;
        assert(out@ =~= old(out)@ + v@.subrange(from as int, k as int));
    }
}

/// Fold a content line, inserting a soft line break after every `FOLD_WIDTH`-th character.
/// The input is expected to hold no line breaks.
pub fn fold_line(s: &str) -> (r: String)
    ensures
        r@ == folded(s@),
{
    let v = chars_of(s);
    let n = v.len();
    let mut out: Vec<char> = Vec::new();
    let mut i: usize = 0;
    assert(v@.subrange(0, n as int) =~= v@);
    while i < n
        invariant
            n == v@.len(),
            i <= n,
            out@ + folded(v@.subrange(i as int, n as int)) == folded(v@),
        decreases n - i,
    {
        let ghost before = out@;
        let ghost rest = v@.subrange(i as int, n as int);
        if n - i < FOLD_WIDTH {
            push_range(&mut out, &v, i, n);
            assert(out@ == before + rest);
            i = n;
            assert(v@.subrange(i as int, n as int) =~= Seq::<char>::empty());
            assert(folded(Seq::<char>::empty()) =~= Seq::<char>::empty());
            assert(out@ + Seq::<char>::empty() =~= out@);
        } else {
            push_range(&mut out, &v, i, i + FOLD_WIDTH);
            out.push('\r');
            out.push('\n');
            out.push(' ');
            assert(rest.subrange(0, FOLD_WIDTH as int) =~= v@.subrange(i as int, i + FOLD_WIDTH));
            assert(rest.subrange(FOLD_WIDTH as int, rest.len() as int) =~= v@.subrange(
                i + FOLD_WIDTH,
                n as int,
            ));
            assert(out@ =~= before + rest.subrange(0, FOLD_WIDTH as int) + fold_break());
            i = i + FOLD_WIDTH;
            assert(out@ + folded(v@.subrange(i as int, n as int)) =~= before + folded(rest));
        }
    }
    assert(v@.subrange(n as int, n as int) =~= Seq::<char>::empty());
    assert(out@ + Seq::<char>::empty() =~= out@);
    string_of(&out)
}

} // verus!
