use vstd::prelude::*;

use crate::grammar::{add_prop_spec, bucket_model, lemma_add_first, props_model};
use crate::text::{escape_chars, escaped, no_line_breaks, unescape_chars, unescaped};

verus! {

/// A property of a component: `[group.]NAME[;param=value...]:value`.
pub struct Property {
    /// Parameters, as (name, value) pairs with distinct names.
    pub params: Vec<(String, String)>,
    /// The value in escaped form, exactly as it stands on the wire after unfolding.
    pub raw_value: String,
    /// The group, e.g. `foo` for a content line `foo.FN:Markus`.
    pub prop_group: Option<String>,
}

/// A component: `BEGIN:NAME`, properties and subcomponents, `END:NAME`.
pub struct Component {
    /// The component's name, such as `VCARD` or `VEVENT`.
    pub name: String,
    /// The properties, grouped by name: (name, properties in order) with distinct names.
    pub props: Vec<(String, Vec<Property>)>,
    /// The child components, in order.
    pub subcomponents: Vec<Component>,
}

/// Does the entry at `i` carry the key `k`, with no earlier entry carrying it?
pub open spec fn first_with_key<V>(m: Seq<(String, V)>, k: Seq<char>, i: int) -> bool {
    &&& 0 <= i < m.len()
    &&& m[i].0@ == k
    &&& forall|j: int| 0 <= j < i ==> m[j].0@ != k
}

/// Does some entry carry the key `k`?
pub open spec fn has_key<V>(m: Seq<(String, V)>, k: Seq<char>) -> bool {
    exists|i: int| 0 <= i < m.len() && m[i].0@ == k
}

/// The position of the first entry carrying the key `k`.
pub open spec fn key_index<V>(m: Seq<(String, V)>, k: Seq<char>) -> int {
    choose|i: int| first_with_key(m, k, i)
}

/// No two entries carry the same key.
pub open spec fn keys_unique<V>(m: Seq<(String, V)>) -> bool {
    forall|i: int, j: int| 0 <= i < j < m.len() ==> m[i].0@ != m[j].0@
}

pub proof fn lemma_first_key<V>(m: Seq<(String, V)>, k: Seq<char>, i: int)
    requires
        first_with_key(m, k, i),
    ensures
        has_key(m, k),
        key_index(m, k) == i,
{
    let c = key_index(m, k);
    assert(first_with_key(m, k, c));
    if c < i {
        assert(m[c].0@ != k);
    }
    if i < c {
        assert(m[i].0@ != k);
    }
}

pub proof fn lemma_has_first_key<V>(m: Seq<(String, V)>, k: Seq<char>)
    requires
        has_key(m, k),
    ensures
        first_with_key(m, k, key_index(m, k)),
    decreases m.len(),
{
    let i = choose|i: int| 0 <= i < m.len() && m[i].0@ == k;
    if m[0].0@ == k {
        lemma_first_key(m, k, 0);
    } else {
        let t = m.subrange(1, m.len() as int);
        assert(t[i - 1].0@ == k);
        lemma_has_first_key(t, k);
        let j = key_index(t, k);
        assert forall|x: int| 0 <= x < j + 1 implies m[x].0@ != k by {
            if x > 0 {
                assert(m[x] == t[x - 1]);
            }
        }
        lemma_first_key(m, k, j + 1);
    }
}

/// The properties of `c` named `k`, in order; empty where there are none.
pub open spec fn props_named(c: &Component, k: Seq<char>) -> Seq<Property> {
    if has_key(c.props@, k) {
        c.props@[key_index(c.props@, k)].1@
    } else {
        Seq::empty()
    }
}

impl Property {
    /// Parameter names are distinct, and no text of the property holds a line break.
    pub open spec fn wf(&self) -> bool {
        &&& keys_unique(self.params@)
        &&& forall|i: int|
            0 <= i < self.params@.len() ==> no_line_breaks((#[trigger] self.params@[i]).0@)
                && no_line_breaks(self.params@[i].1@)
        &&& no_line_breaks(self.raw_value@)
        &&& self.prop_group matches Some(g) ==> no_line_breaks(g@)
    }

    /// Create a property from an unescaped string.
    pub fn new(value: &str) -> (r: Property)
        ensures
            r.params@.len() == 0,
            r.raw_value@ == escaped(value@),
            r.prop_group is None,
    {
        Property { params: Vec::new(), raw_value: escape_chars(value), prop_group: None }
    }

    /// The value as an unescaped string.
    pub fn value_as_string(&self) -> (r: String)
        ensures
            r@ == unescaped(self.raw_value@),
    {
        unescape_chars(self.raw_value.as_str())
    }
}

impl Component {
    /// Property names are distinct, every property is well formed, no name holds a line
    /// break, and so throughout the tree.
    pub open spec fn wf(&self) -> bool
        decreases self,
    {
        &&& no_line_breaks(self.name@)
        &&& keys_unique(self.props@)
        &&& forall|i: int| 0 <= i < self.props@.len() ==> no_line_breaks((#[trigger] self.props@[i]).0@)
        &&& forall|i: int, j: int|
            0 <= i < self.props@.len() && 0 <= j < self.props@[i].1@.len() ==> (
            #[trigger] self.props@[i].1@[j]).wf()
        &&& forall|i: int|
            0 <= i < self.subcomponents@.len() ==> (#[trigger] self.subcomponents@[i]).wf()
    }

    /// An empty component named `name`.
    pub fn new(name: &str) -> (r: Component)
        ensures
            r.name@ == name@,
            r.props@.len() == 0,
            r.subcomponents@.len() == 0,
            no_line_breaks(name@) ==> r.wf(),
    {
        Component { name: name.to_owned(), props: Vec::new(), subcomponents: Vec::new() }
    }

    /// The position of the properties named `key`, if there are any.
    fn find(&self, key: &String) -> (r: Option<usize>)
        ensures
            r is Some <==> has_key(self.props@, key@),
            r is Some ==> r->0 == key_index(self.props@, key@) && first_with_key(
                self.props@,
                key@,
                r->0 as int,
            ),
    {
        let mut i: usize = 0;
        while i < self.props.len()
            invariant
                i <= self.props@.len(),
                forall|j: int| 0 <= j < i ==> self.props@[j].0@ != key@,
            decreases self.props@.len() - i,
        {
            if self.props[i].0 == *key {
                proof {
                    lemma_first_key(self.props@, key@, i as int);
                }
                return Some(i);
            }
            i = i + 1;
        }
        None
    }

    /// The one property named `key`; `None` where there is none, and also where there are
    /// several.
    pub fn single_prop(&self, key: &str) -> (r: Option<&Property>)
        ensures
            r is Some <==> props_named(self, key@).len() == 1,
            r is Some ==> *r->0 == props_named(self, key@)[0],
    {
        let k = key.to_owned();
        match self.find(&k) {
            Some(i) => {
                if self.props[i].1.len() == 1 {
                    Some(&self.props[i].1[0])
                } else {
                    None
                }
            },
            None => None,
        }
    }

    /// The properties named `key`, in order; empty where there are none.
    pub fn all_props(&self, key: &str) -> (r: &[Property])
        ensures
            r@ == props_named(self, key@),
    {
        let k = key.to_owned();
        match self.find(&k) {
            Some(i) => self.props[i].1.as_slice(),
            None => {
                let r: &[Property] = &[];
                assert(r@ =~= Seq::<Property>::empty());
                r
            },
        }
    }

    /// The properties named `key`, for changing in place. Where there are none, an empty
    /// entry for `key` is added first, so `key` is present afterwards.
    pub fn all_props_mut(&mut self, key: &str) -> (r: &mut Vec<Property>)
        ensures
            r@ == props_named(old(self), key@),
            final(self).name == old(self).name,
            final(self).subcomponents == old(self).subcomponents,
            has_key(old(self).props@, key@) ==> final(self).props@ == old(self).props@.update(
                key_index(old(self).props@, key@),
                (old(self).props@[key_index(old(self).props@, key@)].0, *final(r)),
            ),
            !has_key(old(self).props@, key@) ==> {
                &&& final(self).props@.len() == old(self).props@.len() + 1
                &&& final(self).props@.subrange(0, old(self).props@.len() as int) == old(
                    self,
                ).props@
                &&& final(self).props@.last().0@ == key@
                &&& final(self).props@.last().1 == *final(r)
            },
    {
        let k = key.to_owned();
        match self.find(&k) {
            Some(i) => self.vec_entry(i),
            None => {
                self.props.push((k, Vec::new()));
                let n = self.props.len() - 1;
                assert(self.props@.subrange(0, n as int) =~= old(self).props@);
                self.vec_entry(n)
            },
        }
    }

    fn vec_entry(&mut self, i: usize) -> (r: &mut Vec<Property>)
        requires
            i < old(self).props@.len(),
        ensures
            *r == old(self).props@[i as int].1,
            final(self).name == old(self).name,
            final(self).subcomponents == old(self).subcomponents,
            final(self).props@ == old(self).props@.update(
                i as int,
                (old(self).props@[i as int].0, *final(r)),
            ),
    {
        &mut self.props[i].1
    }


    /// Appends `p` to the properties named `key`, keeping the component well formed.
    pub(crate) fn add_prop(&mut self, key: &str, p: Property)
        requires
            old(self).wf(),
            p.wf(),
            no_line_breaks(key@),
        ensures
            final(self).wf(),
            final(self).name == old(self).name,
            final(self).subcomponents == old(self).subcomponents,
            props_named(final(self), key@) == props_named(old(self), key@).push(p),
            props_model(final(self).props@) == add_prop_spec(
                props_model(old(self).props@),
                key@,
                p.model(),
            ),
    {
        let ghost pm = p.model();
        let ghost o = *self;
        let ghost had = has_key(self.props@, key@);
        proof {
            if had {
                lemma_has_first_key(self.props@, key@);
            }
        }
        let bucket = self.all_props_mut(key);
        bucket.push(p);
        proof {
            let m = self.props@;
            let om = props_model(o.props@);
            if had {
                let ki = key_index(o.props@, key@);
                assert forall|j: int| 0 <= j < ki implies om[j].0 != key@ by {
                    assert(o.props@[j].0@ != key@);
                }
                lemma_add_first(om, key@, pm, ki);
                assert(bucket_model(m[ki].1@) =~= bucket_model(o.props@[ki].1@).push(pm));
                assert forall|i: int| 0 <= i < m.len() implies props_model(m)[i] == om.update(
                    ki,
                    (key@, om[ki].1.push(pm)),
                )[i] by {
                    if i != ki {
                        assert(m[i] == o.props@[i]);
                    }
                }
                assert(props_model(m) =~= om.update(ki, (key@, om[ki].1.push(pm))));
                assert(first_with_key(m, key@, ki));
                lemma_first_key(m, key@, ki);
                assert forall|i: int, j: int| 0 <= i < j < m.len() implies m[i].0@ != m[j].0@ by {
                    assert(o.props@[i].0@ != o.props@[j].0@);
                }
            } else {
                let n = o.props@.len();
                assert forall|i: int| 0 <= i < n implies m[i] == o.props@[i] by {
                    assert(m.subrange(0, n as int)[i] == m[i]);
                }
                assert forall|j: int| 0 <= j < n implies om[j].0 != key@ by {
                    assert(o.props@[j].0@ != key@);
                }
                lemma_add_first(om, key@, pm, n as int);
                assert(m[n as int].1@ =~= seq![p]);
                assert(bucket_model(m[n as int].1@) =~= seq![pm]);
                assert forall|i: int| 0 <= i < m.len() implies props_model(m)[i] == om.push(
                    (key@, seq![pm]),
                )[i] by {
                    if i < n {
                        assert(m[i] == o.props@[i]);
                    }
                }
                assert(props_model(m) =~= om.push((key@, seq![pm])));
                assert forall|j: int| 0 <= j < n implies m[j].0@ != key@ by {
                    if m[j].0@ == key@ {
                        assert(o.props@[j].0@ == key@);
                    }
                }
                lemma_first_key(m, key@, n as int);
                assert forall|i: int, j: int| 0 <= i < j < m.len() implies m[i].0@ != m[j].0@ by {
                    if j < n {
                        assert(o.props@[i].0@ != o.props@[j].0@);
                    }
                }
            }
            assert forall|i: int, j: int|
                0 <= i < m.len() && 0 <= j < m[i].1@.len() implies (#[trigger] m[i].1@[j]).wf() by {
                if i < o.props@.len() && !(had && i == key_index(o.props@, key@)) {
                    assert(m[i] == o.props@[i]);
                    assert(o.props@[i].1@[j].wf());
                } else if j < m[i].1@.len() - 1 {
                    assert(m[i].1@[j] == props_named(&o, key@)[j]);
                    if had {
                        assert(o.props@[key_index(o.props@, key@)].1@[j].wf());
                    }
                }
            }
        }
    }

}

} // verus!
