use vstd::prelude::*;

use crate::grammar::{
    add_prop_spec, comp_spec, describes, end_marker, holds_model, items_spec, lemma_run_to,
    lemma_set_first, params_from, params_model, prop_spec, prop_tail, props_model, run_to,
    set_param_spec, value_spec, CompV, PropV,
};
use crate::model::{keys_unique, Component, Property};
use crate::text::{
    chars_of, is_line_break, no_line_breaks, occurs_at, push_range, string_of, unfold_chars, unfolded,
};

verus! {

/// A space or a tab.
pub open spec fn is_space_char(c: char) -> bool {
    c == ' ' || c == '\t'
}

/// A character of a name, a parameter name or a group: ASCII letter, digit or `-`.
pub open spec fn is_token_char(c: char) -> bool {
    ('a' <= c && c <= 'z') || ('A' <= c && c <= 'Z') || ('0' <= c && c <= '9') || c == '-'
}

/// A control character.
pub open spec fn is_ctl_char(c: char) -> bool {
    (c as u32) <= 0x1f || (c as u32) == 0x7f
}

/// A character of a quoted parameter value.
pub open spec fn is_qsafe_char(c: char) -> bool {
    c != '"' && !is_ctl_char(c) && !is_line_break(c)
}

/// A character of an unquoted parameter value.
pub open spec fn is_safe_char(c: char) -> bool {
    is_qsafe_char(c) && c != ';' && c != ':'
}

fn token_char(c: char) -> (r: bool)
    ensures
        r == is_token_char(c),
{
    ('a' <= c && c <= 'z') || ('A' <= c && c <= 'Z') || ('0' <= c && c <= '9') || c == '-'
}

fn qsafe_char(c: char) -> (r: bool)
    ensures
        r == is_qsafe_char(c),
{
    let u = c as u32;
    c != '"' && !(u <= 0x1f || u == 0x7f) && c != '\r' && c != '\n'
}

/// The classes of characters that the scanner reads in runs.
pub enum Run {
    /// Letters, digits and `-`.
    Token,
    /// Anything but a line break.
    Line,
    /// What a quoted parameter value may hold.
    Quoted,
    /// What an unquoted parameter value may hold.
    Unquoted,
    /// Line breaks, spaces and tabs.
    Blank,
}

/// Does `c` belong to the class `kind`?
pub open spec fn in_run(kind: Run, c: char) -> bool {
    match kind {
        Run::Token => is_token_char(c),
        Run::Line => !is_line_break(c),
        Run::Quoted => is_qsafe_char(c),
        Run::Unquoted => is_safe_char(c),
        Run::Blank => is_line_break(c) || is_space_char(c),
    }
}

/// Where the run of characters of class `kind` that starts at `pos` ends.
fn run_end(v: &Vec<char>, pos: usize, kind: &Run) -> (r: usize)
    requires
        pos <= v@.len(),
    ensures
        pos <= r <= v@.len(),
        forall|i: int| pos <= i < r ==> in_run(*kind, #[trigger] v@[i]),
        r < v@.len() ==> !in_run(*kind, v@[r as int]),
        r == run_to(v@, pos as int, *kind),
{
    let mut i = pos;
    while i < v.len()
        invariant
            pos <= i <= v@.len(),
            forall|j: int| pos <= j < i ==> in_run(*kind, #[trigger] v@[j]),
        decreases v@.len() - i,
    {
        let c = v[i];
        let ok = match kind {
            Run::Token => token_char(c),
            Run::Line => c != '\r' && c != '\n',
            Run::Quoted => qsafe_char(c),
            Run::Unquoted => qsafe_char(c) && c != ';' && c != ':',
            Run::Blank => c == '\r' || c == '\n' || c == ' ' || c == '\t',
        };
        if !ok {
            proof {
                lemma_run_to(v@, pos as int, i as int, *kind);
            }
            return i;
        }
        i = i + 1;
    }
    proof {
        lemma_run_to(v@, pos as int, i as int, *kind);
    }
    i
}

/// A run of any class but `Blank` holds no line break.
proof fn lemma_run_text(v: Seq<char>, from: int, to: int, kind: Run)
    requires
        0 <= from <= to <= v.len(),
        !(kind is Blank),
        forall|i: int| from <= i < to ==> in_run(kind, #[trigger] v[i]),
    ensures
        no_line_breaks(v.subrange(from, to)),
{
    assert forall|i: int| 0 <= i < to - from implies !is_line_break(
        #[trigger] v.subrange(from, to)[i],
    ) by {
        assert(v.subrange(from, to)[i] == v[from + i]);
        assert(in_run(kind, v[from + i]));
    }
}

/// Does the literal `lit` stand in `v` at `pos`?
fn at_literal(v: &Vec<char>, pos: usize, lit: &str) -> (r: bool)
    requires
        pos <= v@.len(),
    ensures
        r == occurs_at(v@, pos as int, lit@),
{
    let p = chars_of(lit);
    crate::text::occurs_at_exec(v, pos, &p)
}

/// The characters `v[from..to]` as a string.
fn text_of(v: &Vec<char>, from: usize, to: usize) -> (r: String)
    requires
        from <= to <= v@.len(),
    ensures
        r@ == v@.subrange(from as int, to as int),
{
    let mut w: Vec<char> = Vec::new();
    push_range(&mut w, v, from, to);
    assert(w@ =~= v@.subrange(from as int, to as int));
    string_of(&w)
}

/// Sets parameter `k` to `val`: an existing entry for `k` is overwritten in place,
/// otherwise a new entry is appended.
fn set_param(params: &mut Vec<(String, String)>, k: String, val: String)
    requires
        keys_unique(old(params)@),
        no_line_breaks(k@),
        no_line_breaks(val@),
        forall|i: int|
            0 <= i < old(params)@.len() ==> no_line_breaks((#[trigger] old(params)@[i]).0@)
                && no_line_breaks(old(params)@[i].1@),
    ensures
        keys_unique(final(params)@),
        forall|i: int|
            0 <= i < final(params)@.len() ==> no_line_breaks((#[trigger] final(params)@[i]).0@)
                && no_line_breaks(final(params)@[i].1@),
        params_model(final(params)@) == set_param_spec(params_model(old(params)@), k@, val@),
{
    let mut i: usize = 0;
    while i < params.len()
        invariant
            i <= params@.len(),
            params@ == old(params)@,
            keys_unique(params@),
            no_line_breaks(k@),
            no_line_breaks(val@),
            forall|j: int|
                0 <= j < params@.len() ==> no_line_breaks((#[trigger] params@[j]).0@)
                    && no_line_breaks(params@[j].1@),
            forall|j: int| 0 <= j < i ==> params@[j].0@ != k@,
        decreases params@.len() - i,
    {
        if params[i].0 == k {
            let ghost before = params@;
            let ghost kv = k@;
            let ghost vv = val@;
            params.set(i, (k, val));
            proof {
                lemma_set_first(params_model(before), kv, vv, i as int);
                assert(params_model(params@) =~= params_model(before).update(i as int, (kv, vv)));
            }
            assert forall|a: int| 0 <= a < params@.len() implies no_line_breaks(
                (#[trigger] params@[a]).0@,
            ) && no_line_breaks(params@[a].1@) by {
                if a == i {
                    assert(params@[a].0@ == kv && params@[a].1@ == vv);
                } else {
                    assert(params@[a] == before[a]);
                }
            }
            assert forall|a: int, b: int| 0 <= a < b < params@.len() implies params@[a].0@
                != params@[b].0@ by {
                assert(before[a].0@ != before[b].0@);
            }
            return;
        }
        i = i + 1;
    }
    let ghost before = params@;
    let ghost kv = k@;
    let ghost vv = val@;
    params.push((k, val));
    proof {
        lemma_set_first(params_model(before), kv, vv, before.len() as int);
        assert(params_model(params@) =~= params_model(before).push((kv, vv)));
    }
    assert forall|a: int, b: int| 0 <= a < b < params@.len() implies params@[a].0@
        != params@[b].0@ by {
        if b < old(params)@.len() {
            assert(old(params)@[a].0@ != old(params)@[b].0@);
        }
    }
}

/// Parses one parameter value after `=`: a quoted string, or a run of unquoted characters.
fn parse_param_value(v: &Vec<char>, pos: usize) -> (r: Result<(String, usize), String>)
    requires
        pos <= v@.len(),
    ensures
        r matches Ok((val, e)) ==> pos <= e <= v@.len() && no_line_breaks(val@),
        match value_spec(v@, pos as int) {
            Some((val, e)) => r matches Ok((w, e2)) && w@ == val && e2 == e,
            None => r is Err,
        },
{
    if pos < v.len() && v[pos] == '"' {
        let q = run_end(v, pos + 1, &Run::Quoted);
        proof {
            lemma_run_text(v@, pos + 1, q as int, Run::Quoted);
        }
        if q < v.len() && v[q] == '"' {
            Ok((text_of(v, pos + 1, q), q + 1))
        } else {
            Err("unterminated quoted parameter value".to_owned())
        }
    } else {
        let e = run_end(v, pos, &Run::Unquoted);
        proof {
            lemma_run_text(v@, pos as int, e as int, Run::Unquoted);
        }
        Ok((text_of(v, pos, e), e))
    }
}

/// Parses a content line `[group.]NAME[;param[=value]]*:value` starting at `pos`; returns the
/// property's name, the property, and the position after its value.
fn parse_prop(v: &Vec<char>, pos: usize) -> (r: Result<(String, Property, usize), String>)
    requires
        pos <= v@.len(),
    ensures
        r matches Ok((name, p, e)) ==> pos < e <= v@.len() && p.wf() && name@.len() > 0
            && no_line_breaks(name@),
        match prop_spec(v@, pos as int) {
            Some((name, pv, e)) => r matches Ok((n, p, e2)) && n@ == name && p.model() == pv && e2
                == e,
            None => r is Err,
        },
{
    let t = run_end(v, pos, &Run::Token);
    proof {
        lemma_run_text(v@, pos as int, t as int, Run::Token);
    }
    let mut p = pos;
    let mut group: Option<String> = None;
    if t > pos && t < v.len() && v[t] == '.' {
        group = Some(text_of(v, pos, t));
        p = t + 1;
    }
    let n = run_end(v, p, &Run::Token);
    proof {
        lemma_run_text(v@, p as int, n as int, Run::Token);
    }
    if n == p {
        return Err("expected a property name".to_owned());
    }
    let name = text_of(v, p, n);
    let ghost pn = p as int;
    p = n;
    let mut params: Vec<(String, String)> = Vec::new();
    let ghost n0 = n as int;
    let ghost gm = if group is Some {
        Some(group->0@)
    } else {
        None
    };
    assert(prop_spec(v@, pos as int) == prop_tail(v@, gm, pn, n0));
    assert(params_model(params@) =~= Seq::<(Seq<char>, Seq<char>)>::empty());
    while p < v.len() && v[p] == ';'
        invariant
            pos < p <= v@.len(),
            n0 <= p,
            prop_spec(v@, pos as int) == prop_tail(v@, gm, pn, n0),
            gm == (if group is Some {
                Some(group->0@)
            } else {
                None::<Seq<char>>
            }),
            name@ == v@.subrange(pn, n0),
            params_from(v@, p as int, params_model(params@)) == params_from(
                v@,
                n0,
                Seq::<(Seq<char>, Seq<char>)>::empty(),
            ),
            keys_unique(params@),
            forall|i: int|
                0 <= i < params@.len() ==> no_line_breaks((#[trigger] params@[i]).0@)
                    && no_line_breaks(params@[i].1@),
        decreases v@.len() - p,
    {
        let k1 = run_end(v, p + 1, &Run::Token);
        proof {
            lemma_run_text(v@, p + 1, k1 as int, Run::Token);
        }
        if k1 == p + 1 {
            assert(params_from(v@, p as int, params_model(params@)) is None);
            return Err("expected a parameter name".to_owned());
        }
        let key = text_of(v, p + 1, k1);
        if k1 < v.len() && v[k1] == '=' {
            match parse_param_value(v, k1 + 1) {
                Ok((val, e)) => {
                    set_param(&mut params, key, val);
                    p = e;
                },
                Err(msg) => {
                    assert(params_from(v@, p as int, params_model(params@)) is None);
                    return Err(msg);
                },
            }
        } else {
            let empty = String::new();
            assert(no_line_breaks(empty@));
            set_param(&mut params, key, empty);
            p = k1;
        }
    }
    if !(p < v.len() && v[p] == ':') {
        return Err("expected `:` after the property name".to_owned());
    }
    let e = run_end(v, p + 1, &Run::Line);
    proof {
        lemma_run_text(v@, p + 1, e as int, Run::Line);
    }
    if e == p + 1 {
        return Err("expected a property value".to_owned());
    }
    let prop = Property { params, raw_value: text_of(v, p + 1, e), prop_group: group };
    Ok((name, prop, e))
}

/// `t` opens a component named `name`: `BEGIN:`, then `name`, then a line break or the end.
pub open spec fn opens_with(t: Seq<char>, name: Seq<char>) -> bool {
    &&& 6 + name.len() <= t.len()
    &&& t.subrange(0, 6) == begin_marker()
    &&& t.subrange(6, 6 + name.len() as int) == name
    &&& 6 + name.len() < t.len() ==> is_line_break(t[6 + name.len() as int])
}

/// The marker that opens a component.
pub open spec fn begin_marker() -> Seq<char> {
    seq!['B', 'E', 'G', 'I', 'N', ':']
}

/// Parses a component `BEGIN:NAME ... END:NAME` starting at `pos`, with the line breaks and
/// blanks after it; returns it and the position after them. Properties and subcomponents may
/// come in any order between the two markers.
fn parse_comp(v: &Vec<char>, pos: usize) -> (r: Result<(Component, usize), String>)
    requires
        pos <= v@.len(),
    ensures
        r matches Ok((c, e)) ==> pos < e <= v@.len() && c.wf() && c.name@.len() > 0,
        r is Ok ==> occurs_at(v@, pos as int, begin_marker()),
        r matches Ok((c, _)) ==> opens_with(v@.subrange(pos as int, v@.len() as int), c.name@),
        match comp_spec(v@, pos as int) {
            Some((m, e)) => r matches Ok((c, e2)) && e2 == e && holds_model(c, m),
            None => r is Err,
        },
    decreases v@.len() - pos,
{
    proof {
        reveal_strlit("BEGIN:");
        reveal_strlit("END:");
        assert("BEGIN:"@ =~= begin_marker());
        assert("END:"@ =~= end_marker());
    }
    if !at_literal(v, pos, "BEGIN:") {
        return Err("expected `BEGIN:`".to_owned());
    }
    let n = v.len();
    assert(pos + 6 <= n);
    let ns = pos + 6;
    let ne = run_end(v, ns, &Run::Line);
    if ne == ns {
        return Err("expected a component name after `BEGIN:`".to_owned());
    }
    let mut comp = Component { name: text_of(v, ns, ne), props: Vec::new(), subcomponents: Vec::new() };
    let ghost rest = v@.subrange(pos as int, v@.len() as int);
    assert(rest.subrange(0, 6) =~= v@.subrange(pos as int, pos + 6));
    assert(rest.subrange(6, 6 + comp.name@.len() as int) =~= comp.name@);
    assert(opens_with(rest, comp.name@));
    let mut p = run_end(v, ne, &Run::Blank);
    let ghost mut acc = CompV {
        name: v@.subrange(ns as int, ne as int),
        props: Seq::empty(),
        subs: Seq::empty(),
    };
    assert(props_model(comp.props@) =~= Seq::<(Seq<char>, Seq<PropV>)>::empty());
    assert(holds_model(comp, acc));
    assert(comp_spec(v@, pos as int) == items_spec(v@, p as int, acc));
    while !at_literal(v, p, "END:")
        invariant
            pos < p <= v@.len(),
            holds_model(comp, acc),
            comp_spec(v@, pos as int) == items_spec(v@, p as int, acc),
            "END:"@ == end_marker(),
            "BEGIN:"@ == begin_marker(),
            comp.wf(),
            comp.name@.len() > 0,
            opens_with(v@.subrange(pos as int, v@.len() as int), comp.name@),
        decreases v@.len() - p,
    {
        if p == v.len() {
            return Err("missing `END:` of a component".to_owned());
        }
        if at_literal(v, p, "BEGIN:") {
            match parse_comp(v, p) {
                Ok((sub, e)) => {
                    let ghost sm = match comp_spec(v@, p as int) {
                        Some((m, _)) => m,
                        None => acc,
                    };
                    let ghost old_comp = comp;
                    comp.subcomponents.push(sub);
                    proof {
                        let nacc = CompV { subs: acc.subs.push(sm), ..acc };
                        assert(comp.subcomponents@ == old_comp.subcomponents@.push(sub));
                        assert forall|i: int| 0 <= i < comp.subcomponents@.len() implies holds_model(
                            #[trigger] comp.subcomponents@[i],
                            nacc.subs[i],
                        ) by {
                            if i < old_comp.subcomponents@.len() {
                                assert(comp.subcomponents@[i] == old_comp.subcomponents@[i]);
                                assert(holds_model(old_comp.subcomponents@[i], acc.subs[i]));
                            }
                        }
                        assert(holds_model(comp, nacc));
                        acc = nacc;
                    }
                    p = e;
                },
                Err(msg) => {
                    return Err(msg);
                },
            }
        } else {
            match parse_prop(v, p) {
                Ok((name, prop, e)) => {
                    let ghost pm = prop.model();
                    comp.add_prop(name.as_str(), prop);
                    p = run_end(v, e, &Run::Blank);
                    proof {
                        let nacc = CompV { props: add_prop_spec(acc.props, name@, pm), ..acc };
                        assert(holds_model(comp, nacc));
                        acc = nacc;
                    }
                },
                Err(msg) => {
                    return Err(msg);
                },
            }
        }
    }
    let n = v.len();
    assert(p + 4 <= n);
    let es = p + 4;
    let ee = run_end(v, es, &Run::Line);
    let end_name = text_of(v, es, ee);
    if !(end_name == comp.name) {
        return Err("`END:` does not match `BEGIN:`".to_owned());
    }
    let e = run_end(v, ee, &Run::Blank);
    Ok((comp, e))
}

/// Parses a component from text, after unfolding its lines. The whole text must be one
/// component. The error is a human-readable message.
pub fn parse_component(s: &str) -> (r: Result<Component, String>)
    ensures
        r matches Ok(c) ==> describes(unfolded(s@), c),
        r is Ok <==> exists|c: Component| describes(unfolded(s@), c),
        r matches Ok(c) ==> c.wf() && c.name@.len() > 0 && opens_with(unfolded(s@), c.name@),
        !occurs_at(unfolded(s@), 0, begin_marker()) ==> r is Err,
{
    let v = chars_of(s);
    let u = unfold_chars(&v);
    assert(u@.subrange(0, u@.len() as int) =~= u@);
    proof {
        reveal_strlit("BEGIN:");
    }
    match parse_comp(&u, 0) {
        Ok((c, e)) => {
            if e == u.len() {
                assert(describes(u@, c));
                Ok(c)
            } else {
                Err("unexpected text after the component".to_owned())
            }
        },
        Err(msg) => Err(msg),
    }
}

impl Component {
    /// Same as `parse_component`, without the error message.
    pub fn from_str(s: &str) -> (r: Option<Component>)
        ensures
            r matches Some(c) ==> describes(unfolded(s@), c),
        r is Some <==> exists|c: Component| describes(unfolded(s@), c),
        r matches Some(c) ==> c.wf() && c.name@.len() > 0 && opens_with(unfolded(s@), c.name@),
            !occurs_at(unfolded(s@), 0, begin_marker()) ==> r is None,
    {
        match parse_component(s) {
            Ok(c) => Some(c),
            Err(_) => None,
        }
    }
}

} // verus!
