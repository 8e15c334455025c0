use vstd::prelude::*;

use crate::model::{Component, Property};
use crate::text::{fold_line, folded};

verus! {

pub open spec fn crlf() -> Seq<char> {
    seq!['\r', '\n']
}

/// `;name=value` for each parameter, in order.
pub open spec fn params_text(ps: Seq<(String, String)>) -> Seq<char>
    decreases ps.len(),
{
    if ps.len() == 0 {
        Seq::empty()
    } else {
        seq![';'] + ps[0].0@ + seq!['='] + ps[0].1@ + params_text(ps.drop_first())
    }
}

/// The content line of property `p` named `name`, with its value folded.
pub open spec fn prop_line(name: Seq<char>, p: Property) -> Seq<char> {
    let group = match p.prop_group {
        Some(g) => g@ + seq!['.'],
        None => Seq::empty(),
    };
    group + name + params_text(p.params@) + seq![':'] + folded(p.raw_value@) + crlf()
}

/// The content lines of the properties `ps`, all named `name`, in order.
pub open spec fn bucket_text(name: Seq<char>, ps: Seq<Property>) -> Seq<char>
    decreases ps.len(),
{
    if ps.len() == 0 {
        Seq::empty()
    } else {
        prop_line(name, ps[0]) + bucket_text(name, ps.drop_first())
    }
}

/// The content lines of every property, name by name.
pub open spec fn props_text(props: Seq<(String, Vec<Property>)>) -> Seq<char>
    decreases props.len(),
{
    if props.len() == 0 {
        Seq::empty()
    } else {
        bucket_text(props[0].0@, props[0].1@) + props_text(props.drop_first())
    }
}

/// The text of component `c`.
pub open spec fn written(c: Component) -> Seq<char>
    decreases c, c.subcomponents@.len() + 1,
{
    seq!['B', 'E', 'G', 'I', 'N', ':'] + c.name@ + crlf() + props_text(c.props@) + subs_text(c, 0)
        + seq!['E', 'N', 'D', ':'] + c.name@ + crlf()
}

/// The text of the subcomponents of `c` from the `i`-th on.
pub open spec fn subs_text(c: Component, i: int) -> Seq<char>
    decreases c, c.subcomponents@.len() - i,
{
    if 0 <= i < c.subcomponents@.len() {
        written(c.subcomponents@[i]) + subs_text(c, i + 1)
    } else {
        Seq::empty()
    }
}

fn push_crlf(buf: &mut String)
    ensures
        final(buf)@ == old(buf)@ + crlf(),
{
    buf.push('\r');
    buf.push('\n');
    assert(buf@ =~= old(buf)@ + crlf());
}

fn write_params(buf: &mut String, ps: &Vec<(String, String)>)
    ensures
        final(buf)@ == old(buf)@ + params_text(ps@),
{
    let mut i: usize = 0;
    assert(ps@.subrange(0, ps@.len() as int) =~= ps@);
    while i < ps.len()
        invariant
            i <= ps@.len(),
            buf@ + params_text(ps@.subrange(i as int, ps@.len() as int)) == old(buf)@ + params_text(
                ps@,
            ),
        decreases ps@.len() - i,
    {
        let ghost before = buf@;
        let ghost rest = ps@.subrange(i as int, ps@.len() as int);
        assert(rest.drop_first() =~= ps@.subrange(i + 1, ps@.len() as int));
        buf.push(';');
        buf.append(ps[i].0.as_str());
        buf.push('=');
        buf.append(ps[i].1.as_str());
        i = i + 1;
        assert(buf@ =~= before + (seq![';'] + rest[0].0@ + seq!['='] + rest[0].1@));
    }
    assert(ps@.subrange(i as int, ps@.len() as int) =~= Seq::<(String, String)>::empty());
    assert(buf@ + Seq::<char>::empty() =~= buf@);
}

fn write_prop(buf: &mut String, name: &String, p: &Property)
    ensures
        final(buf)@ == old(buf)@ + prop_line(name@, *p),
{
    match &p.prop_group {
        Some(g) => {
            buf.append(g.as_str());
            buf.push('.');
        },
        None => {},
    }
    buf.append(name.as_str());
    write_params(buf, &p.params);
    buf.push(':');
    let v = fold_line(p.raw_value.as_str());
    buf.append(v.as_str());
    push_crlf(buf);
    let ghost group = if p.prop_group is Some {
        p.prop_group->0@ + seq!['.']
    } else {
        Seq::<char>::empty()
    };
    assert(buf@ =~= old(buf)@ + (group + name@ + params_text(p.params@) + seq![':'] + folded(
        p.raw_value@,
    ) + crlf()));
}

fn write_bucket(buf: &mut String, name: &String, ps: &Vec<Property>)
    ensures
        final(buf)@ == old(buf)@ + bucket_text(name@, ps@),
{
    let mut i: usize = 0;
    assert(ps@.subrange(0, ps@.len() as int) =~= ps@);
    while i < ps.len()
        invariant
            i <= ps@.len(),
            buf@ + bucket_text(name@, ps@.subrange(i as int, ps@.len() as int)) == old(buf)@
                + bucket_text(name@, ps@),
        decreases ps@.len() - i,
    {
        let ghost before = buf@;
        let ghost rest = ps@.subrange(i as int, ps@.len() as int);
        assert(rest.drop_first() =~= ps@.subrange(i + 1, ps@.len() as int));
        write_prop(buf, name, &ps[i]);
        i = i + 1;
        assert(buf@ + bucket_text(name@, ps@.subrange(i as int, ps@.len() as int)) =~= before
            + bucket_text(name@, rest));
    }
    assert(ps@.subrange(i as int, ps@.len() as int) =~= Seq::<Property>::empty());
    assert(buf@ + Seq::<char>::empty() =~= buf@);
}

fn write_props(buf: &mut String, props: &Vec<(String, Vec<Property>)>)
    ensures
        final(buf)@ == old(buf)@ + props_text(props@),
{
    let mut i: usize = 0;
    assert(props@.subrange(0, props@.len() as int) =~= props@);
    while i < props.len()
        invariant
            i <= props@.len(),
            buf@ + props_text(props@.subrange(i as int, props@.len() as int)) == old(buf)@
                + props_text(props@),
        decreases props@.len() - i,
    {
        let ghost before = buf@;
        let ghost rest = props@.subrange(i as int, props@.len() as int);
        assert(rest.drop_first() =~= props@.subrange(i + 1, props@.len() as int));
        write_bucket(buf, &props[i].0, &props[i].1);
        i = i + 1;
        assert(buf@ + props_text(props@.subrange(i as int, props@.len() as int)) =~= before
            + props_text(rest));
    }
    assert(props@.subrange(i as int, props@.len() as int) =~= Seq::<
        (String, Vec<Property>),
    >::empty());
    assert(buf@ + Seq::<char>::empty() =~= buf@);
}

fn write_into(buf: &mut String, c: &Component)
    ensures
        final(buf)@ == old(buf)@ + written(*c),
    decreases *c,
{
    buf.append("BEGIN:");
    buf.append(c.name.as_str());
    push_crlf(buf);
    write_props(buf, &c.props);
    let ghost mid = buf@;
    let mut i: usize = 0;
    while i < c.subcomponents.len()
        invariant
            i <= c.subcomponents@.len(),
            buf@ + subs_text(*c, i as int) == mid + subs_text(*c, 0),
        decreases c.subcomponents@.len() - i,
    {
        let ghost before = buf@;
        write_into(buf, &c.subcomponents[i]);
        i = i + 1;
        assert(buf@ + subs_text(*c, i as int) =~= before + subs_text(*c, i - 1));
    }
    assert(subs_text(*c, i as int) =~= Seq::<char>::empty());
    let ghost after_subs = buf@;
    buf.append("END:");
    buf.append(c.name.as_str());
    push_crlf(buf);
    proof {
        reveal_strlit("BEGIN:");
        reveal_strlit("END:");
    }
    assert(buf@ =~= old(buf)@ + written(*c));
}

/// Write a component as text: `BEGIN:` line, the properties' content lines, the
/// subcomponents, `END:` line, every line ended by CRLF and every value folded.
pub fn write_component(c: &Component) -> (r: String)
    ensures
        r@ == written(*c),
{
    let mut buf = String::new();
    write_into(&mut buf, c);
    assert(buf@ =~= written(*c));
    buf
}

} // verus!
