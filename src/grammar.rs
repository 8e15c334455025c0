use vstd::prelude::*;

use crate::model::{Component, Property};
use crate::parser::{begin_marker, in_run, Run};
use crate::text::occurs_at;

verus! {

/// Where the run of characters of class `kind` that starts at `pos` ends.
pub open spec fn run_to(t: Seq<char>, pos: int, kind: Run) -> int
    decreases t.len() - pos,
{
    if pos < 0 || pos >= t.len() || !in_run(kind, t[pos]) {
        pos
    } else {
        run_to(t, pos + 1, kind)
    }
}

/// A run that ends at `r` is the run that `run_to` finds.
pub proof fn lemma_run_to(t: Seq<char>, q: int, r: int, kind: Run)
    requires
        0 <= q <= r <= t.len(),
        forall|i: int| q <= i < r ==> in_run(kind, #[trigger] t[i]),
        r < t.len() ==> !in_run(kind, t[r]),
    ensures
        run_to(t, q, kind) == r,
    decreases r - q,
{
    if q < r {
        assert(in_run(kind, t[q]));
        lemma_run_to(t, q + 1, r, kind);
    }
}

/// Setting a parameter overwrites the first entry with its name, or appends.
pub proof fn lemma_set_first(ps: Seq<(Seq<char>, Seq<char>)>, k: Seq<char>, v: Seq<char>, i: int)
    requires
        0 <= i <= ps.len(),
        forall|j: int| 0 <= j < i ==> ps[j].0 != k,
        i < ps.len() ==> ps[i].0 == k,
    ensures
        set_param_spec(ps, k, v) == if i < ps.len() {
            ps.update(i, (k, v))
        } else {
            ps.push((k, v))
        },
    decreases ps.len(),
{
    if ps.len() > 0 {
        if i == 0 {
            assert(seq![(k, v)] + ps.drop_first() =~= ps.update(0, (k, v)));
        } else {
            let t = ps.drop_first();
            assert forall|j: int| 0 <= j < i - 1 implies t[j].0 != k by {
                assert(t[j] == ps[j + 1]);
            }
            lemma_set_first(t, k, v, i - 1);
            if i < ps.len() {
                assert(seq![ps[0]] + t.update(i - 1, (k, v)) =~= ps.update(i, (k, v)));
            } else {
                assert(seq![ps[0]] + t.push((k, v)) =~= ps.push((k, v)));
            }
        }
    } else {
        assert(seq![(k, v)] =~= ps.push((k, v)));
    }
}

/// Adding a property extends the first entry with its name, or appends a new entry.
pub proof fn lemma_add_first(ps: Seq<(Seq<char>, Seq<PropV>)>, k: Seq<char>, p: PropV, i: int)
    requires
        0 <= i <= ps.len(),
        forall|j: int| 0 <= j < i ==> ps[j].0 != k,
        i < ps.len() ==> ps[i].0 == k,
    ensures
        add_prop_spec(ps, k, p) == if i < ps.len() {
            ps.update(i, (k, ps[i].1.push(p)))
        } else {
            ps.push((k, seq![p]))
        },
    decreases ps.len(),
{
    if ps.len() > 0 {
        if i == 0 {
            assert(seq![(k, ps[0].1.push(p))] + ps.drop_first() =~= ps.update(0, (k, ps[0].1.push(p))));
        } else {
            let t = ps.drop_first();
            assert forall|j: int| 0 <= j < i - 1 implies t[j].0 != k by {
                assert(t[j] == ps[j + 1]);
            }
            lemma_add_first(t, k, p, i - 1);
            if i < ps.len() {
                assert(seq![ps[0]] + t.update(i - 1, (k, t[i - 1].1.push(p))) =~= ps.update(
                    i,
                    (k, ps[i].1.push(p)),
                ));
            } else {
                assert(seq![ps[0]] + t.push((k, seq![p])) =~= ps.push((k, seq![p])));
            }
        }
    } else {
        assert(seq![(k, seq![p])] =~= ps.push((k, seq![p])));
    }
}

/// A property as read: its group, its parameters in order, its raw value.
pub struct PropV {
    pub group: Option<Seq<char>>,
    pub params: Seq<(Seq<char>, Seq<char>)>,
    pub raw: Seq<char>,
}

/// A component as read: its name, its properties grouped by name, its subcomponents.
pub struct CompV {
    pub name: Seq<char>,
    pub props: Seq<(Seq<char>, Seq<PropV>)>,
    pub subs: Seq<CompV>,
}

/// The marker that closes a component.
pub open spec fn end_marker() -> Seq<char> {
    seq!['E', 'N', 'D', ':']
}

/// `ps` with parameter `k` set to `v`: the first entry named `k` is overwritten, or a new
/// entry is appended.
pub open spec fn set_param_spec(ps: Seq<(Seq<char>, Seq<char>)>, k: Seq<char>, v: Seq<char>) -> Seq<
    (Seq<char>, Seq<char>),
>
    decreases ps.len(),
{
    if ps.len() == 0 {
        seq![(k, v)]
    } else if ps[0].0 == k {
        seq![(k, v)] + ps.drop_first()
    } else {
        seq![ps[0]] + set_param_spec(ps.drop_first(), k, v)
    }
}

/// `ps` with property `p` appended to those named `k`, which are added after the others when
/// there are none yet.
pub open spec fn add_prop_spec(ps: Seq<(Seq<char>, Seq<PropV>)>, k: Seq<char>, p: PropV) -> Seq<
    (Seq<char>, Seq<PropV>),
>
    decreases ps.len(),
{
    if ps.len() == 0 {
        seq![(k, seq![p])]
    } else if ps[0].0 == k {
        seq![(k, ps[0].1.push(p))] + ps.drop_first()
    } else {
        seq![ps[0]] + add_prop_spec(ps.drop_first(), k, p)
    }
}

/// A parameter value at `pos` (after `=`): a quoted string, whose quotes are dropped, or a run
/// of unquoted characters; with the position after it.
pub open spec fn value_spec(t: Seq<char>, pos: int) -> Option<(Seq<char>, int)> {
    if pos < t.len() && t[pos] == '"' {
        let q = run_to(t, pos + 1, Run::Quoted);
        if q < t.len() && t[q] == '"' {
            Some((t.subrange(pos + 1, q), q + 1))
        } else {
            None
        }
    } else {
        let e = run_to(t, pos, Run::Unquoted);
        Some((t.subrange(pos, e), e))
    }
}

/// The parameters `;name[=value]` from `p` on, set into `acc` in order; with the position
/// after them.
pub open spec fn params_from(t: Seq<char>, p: int, acc: Seq<(Seq<char>, Seq<char>)>) -> Option<
    (Seq<(Seq<char>, Seq<char>)>, int),
>
    decreases t.len() - p,
{
    if 0 <= p < t.len() && t[p] == ';' {
        let k1 = run_to(t, p + 1, Run::Token);
        if k1 <= p + 1 || k1 > t.len() {
            None
        } else {
            let key = t.subrange(p + 1, k1);
            if k1 < t.len() && t[k1] == '=' {
                match value_spec(t, k1 + 1) {
                    Some((val, e)) => if e <= p || e > t.len() {
                        None
                    } else {
                        params_from(t, e, set_param_spec(acc, key, val))
                    },
                    None => None,
                }
            } else {
                params_from(t, k1, set_param_spec(acc, key, Seq::empty()))
            }
        }
    } else {
        Some((acc, p))
    }
}

/// A content line `[group.]NAME[;param[=value]]*:value` at `pos`: its name, the property, and
/// the position after the value.
pub open spec fn prop_spec(t: Seq<char>, pos: int) -> Option<(Seq<char>, PropV, int)> {
    let g = run_to(t, pos, Run::Token);
    let has_group = g > pos && g < t.len() && t[g] == '.';
    let p = if has_group {
        g + 1
    } else {
        pos
    };
    let group = if has_group {
        Some(t.subrange(pos, g))
    } else {
        None
    };
    let n = run_to(t, p, Run::Token);
    if n <= p {
        None
    } else {
        prop_tail(t, group, p, n)
    }
}

/// The rest of a content line whose name stands at `p..n`: parameters, `:`, the value.
pub open spec fn prop_tail(t: Seq<char>, group: Option<Seq<char>>, p: int, n: int) -> Option<
    (Seq<char>, PropV, int),
> {
    match params_from(t, n, Seq::empty()) {
        Some((ps, colon)) => if colon < t.len() && t[colon] == ':' {
            let e = run_to(t, colon + 1, Run::Line);
            if e <= colon + 1 {
                None
            } else {
                Some((t.subrange(p, n), PropV { group, params: ps, raw: t.subrange(colon + 1, e) }, e))
            }
        } else {
            None
        },
        None => None,
    }
}

/// A component `BEGIN:NAME ... END:NAME` at `pos`, with the line breaks and blanks after it;
/// and the position after them.
pub open spec fn comp_spec(t: Seq<char>, pos: int) -> Option<(CompV, int)>
    decreases t.len() - pos, 0int,
{
    if !occurs_at(t, pos, begin_marker()) {
        None
    } else {
        let ns = pos + 6;
        let ne = run_to(t, ns, Run::Line);
        let p = run_to(t, ne, Run::Blank);
        if ne <= ns || p <= pos || p > t.len() {
            None
        } else {
            items_spec(t, p, CompV { name: t.subrange(ns, ne), props: Seq::empty(), subs: Seq::empty() })
        }
    }
}

/// The properties and subcomponents from `p` on up to the `END:` line of the component `acc`
/// being read, added to `acc` in order; with the position after that line and the blanks after
/// it. The `END:` name must be the component's name.
pub open spec fn items_spec(t: Seq<char>, p: int, acc: CompV) -> Option<(CompV, int)>
    decreases t.len() - p, 1int,
{
    if p < 0 || p > t.len() {
        None
    } else if occurs_at(t, p, end_marker()) {
        let ee = run_to(t, p + 4, Run::Line);
        if t.subrange(p + 4, ee) == acc.name {
            Some((acc, run_to(t, ee, Run::Blank)))
        } else {
            None
        }
    } else if p == t.len() {
        None
    } else if occurs_at(t, p, begin_marker()) {
        match comp_spec(t, p) {
            Some((sub, e)) => if e <= p || e > t.len() {
                None
            } else {
                items_spec(t, e, CompV { subs: acc.subs.push(sub), ..acc })
            },
            None => None,
        }
    } else {
        match prop_spec(t, p) {
            Some((name, pv, e)) => {
                let q = run_to(t, e, Run::Blank);
                if q <= p || q > t.len() {
                    None
                } else {
                    items_spec(t, q, CompV { props: add_prop_spec(acc.props, name, pv), ..acc })
                }
            },
            None => None,
        }
    }
}

impl Property {
    /// The property as read.
    pub open spec fn model(&self) -> PropV {
        PropV {
            group: match self.prop_group {
                Some(g) => Some(g@),
                None => None,
            },
            params: params_model(self.params@),
            raw: self.raw_value@,
        }
    }
}

/// Parameters as read.
pub open spec fn params_model(ps: Seq<(String, String)>) -> Seq<(Seq<char>, Seq<char>)> {
    ps.map_values(|kv: (String, String)| (kv.0@, kv.1@))
}

/// The properties of a component as read.
pub open spec fn props_model(ps: Seq<(String, Vec<Property>)>) -> Seq<(Seq<char>, Seq<PropV>)> {
    ps.map_values(|e: (String, Vec<Property>)| (e.0@, bucket_model(e.1@)))
}

/// Properties of one name as read.
pub open spec fn bucket_model(ps: Seq<Property>) -> Seq<PropV> {
    ps.map_values(|p: Property| p.model())
}

/// Component `c` holds what `m` describes, down the whole tree.
pub open spec fn holds_model(c: Component, m: CompV) -> bool
    decreases c,
{
    &&& c.name@ == m.name
    &&& props_model(c.props@) == m.props
    &&& c.subcomponents@.len() == m.subs.len()
    &&& forall|i: int|
        0 <= i < c.subcomponents@.len() ==> holds_model(#[trigger] c.subcomponents@[i], m.subs[i])
}

/// The text `t` is one component, described by `c`: the grammar reads it whole, and the tree
/// it reads is `c`.
pub open spec fn describes(t: Seq<char>, c: Component) -> bool {
    match comp_spec(t, 0) {
        Some((m, e)) => e == t.len() && holds_model(c, m),
        None => false,
    }
}

} // verus!
