//! Entities: lists of components, at most one of each component type.
use vstd::prelude::*;

verus! {

/// A component of an entity, which names its type by a number.
pub trait Component {
    /// Reports the number of this component's type.
    fn get_id(&self) -> usize;
}

/// The components of `s`, without those of type `type_id`, in their order.
pub open spec fn without_type<C>(s: Seq<(usize, C)>, type_id: usize) -> Seq<(usize, C)>
    decreases s.len(),
{
    if s.len() == 0 {
        seq![]
    } else if s.last().0 == type_id {
        without_type(s.drop_last(), type_id)
    } else {
        without_type(s.drop_last(), type_id).push(s.last())
    }
}

/// Whether no two components of `s` have the same type.
pub open spec fn distinct_types<C>(s: Seq<(usize, C)>) -> bool {
    forall|i: int, j: int| 0 <= i < j < s.len() ==> #[trigger] s[i].0 != #[trigger] s[j].0
}

/// Whether `s` holds a component of type `type_id`.
pub open spec fn has_type<C>(s: Seq<(usize, C)>, type_id: usize) -> bool {
    exists|i: int| 0 <= i < s.len() && #[trigger] s[i].0 == type_id
}

/// An `Entity` is a list of components.
pub struct Entity<C: Component> {
    components: Vec<(usize, C)>,
}

impl<C: Component> View for Entity<C> {
    type V = Seq<(usize, C)>;

    closed spec fn view(&self) -> Seq<(usize, C)> {
        self.components@
    }
}

proof fn lemma_without_type<C>(s: Seq<(usize, C)>, type_id: usize)
    ensures
        !has_type(without_type(s, type_id), type_id),
        distinct_types(s) ==> distinct_types(without_type(s, type_id)),
        forall|i: int| 0 <= i < without_type(s, type_id).len() ==> has_type(s, #[trigger] without_type(s, type_id)[i].0),
    decreases s.len(),
{
    if s.len() > 0 {
        let p = s.drop_last();
        lemma_without_type(p, type_id);
        let w = without_type(p, type_id);
        assert forall|i: int| 0 <= i < w.len() implies has_type(s, #[trigger] w[i].0) by {
            let k = choose|k: int| 0 <= k < p.len() && #[trigger] p[k].0 == w[i].0;
            assert(s[k] == p[k]);
        }
        if s.last().0 != type_id {
            let w2 = w.push(s.last());
            assert(has_type(s, s.last().0)) by {
                assert(s[s.len() - 1] == s.last());
            }
            assert forall|i: int| 0 <= i < w2.len() implies has_type(s, #[trigger] w2[i].0) by {
                if i < w.len() {
                    assert(w2[i] == w[i]);
                }
            }
            if distinct_types(s) {
                assert(distinct_types(p)) by {
                    assert forall|i: int, j: int| 0 <= i < j < p.len() implies #[trigger] p[i].0 != #[trigger] p[j].0 by {
                        assert(s[i] == p[i] && s[j] == p[j]);
                    }
                }
                assert forall|i: int, j: int| 0 <= i < j < w2.len() implies #[trigger] w2[i].0 != #[trigger] w2[j].0 by {
                    if j == w.len() {
                        assert(w2[i] == w[i]);
                        let k = choose|k: int| 0 <= k < p.len() && #[trigger] p[k].0 == w[i].0;
                        assert(s[k] == p[k]);
                        assert(s[s.len() - 1] == s.last());
                    } else {
                        assert(w2[i] == w[i] && w2[j] == w[j]);
                    }
                }
            }
            assert(!has_type(w2, type_id)) by {
                if has_type(w2, type_id) {
                    let k = choose|k: int| 0 <= k < w2.len() && #[trigger] w2[k].0 == type_id;
                    if k < w.len() {
                        assert(w2[k] == w[k]);
                    }
                }
            }
        } else {
            if distinct_types(s) {
                assert forall|i: int, j: int| 0 <= i < j < p.len() implies #[trigger] p[i].0 != #[trigger] p[j].0 by {
                    assert(s[i] == p[i] && s[j] == p[j]);
                }
            }
        }
    }
}

impl<C: Component> Entity<C> {
    /// Whether no two components of the entity have the same type.
    pub open spec fn wf(&self) -> bool {
        distinct_types(self@)
    }

    /// An entity without components.
    pub fn new() -> (out: Entity<C>)
        ensures
            out@ == Seq::<(usize, C)>::empty(),
            out.wf(),
    {
        Entity { components: Vec::new() }
    }

    /// The position of the component of type `type_id`, if the entity has one.
    fn find_component(&self, type_id: usize) -> (out: Option<usize>)
        ensures
            match out {
                Some(i) => i < self@.len() && self@[i as int].0 == type_id,
                None => !has_type(self@, type_id),
            },
    {
        let mut i: usize = 0;
        while i < self.components.len()
            invariant
                i <= self@.len(),
                self@ == self.components@,
                forall|k: int| 0 <= k < i ==> #[trigger] self@[k].0 != type_id,
            decreases self@.len() - i,
        {
            if self.components[i].0 == type_id {
                return Some(i);
            }
            i = i + 1;
        }
        None
    }

    /// Adds a component whose type is numbered `id`. An `Entity` can only contain a single
    /// instance of any type of component: where one of type `id` is there already, the entity
    /// stays as it is and the component is handed back.
    pub fn add_component_with_id(&mut self, id: usize, new_component: C) -> (out: Result<(), C>)
        requires
            old(self).wf(),
        ensures
            final(self).wf(),
            out is Err <==> has_type(old(self)@, id),
            out is Ok ==> final(self)@ == old(self)@.push((id, new_component)),
            out matches Err(c) ==> c == new_component && final(self)@ == old(self)@,
    {
        match self.find_component(id) {
            Some(_) => Err(new_component),
            None => {
                self.components.push((id, new_component));
                proof {
                    let s = self@;
                    let o = old(self)@;
                    assert(s =~= o.push((id, new_component)));
                    assert forall|i: int, j: int| 0 <= i < j < s.len() implies #[trigger] s[i].0 != #[trigger] s[j].0 by {
                        assert(s[i] == o[i]);
                        if j < o.len() {
                            assert(s[j] == o[j]);
                        }
                    }
                }
                Ok(())
            },
        }
    }

    /// Adds a component to the `Entity`, under the number of its type as `get_id` reports it:
    /// the component is added where that type is new to the entity, and handed back otherwise
    /// (see `add_component_with_id`). The number is what a call of `get_id` on the component
    /// returns (`call_ensures`), whatever the user's implementation of `Component` makes it.
    pub fn add_component(&mut self, new_component: C) -> (out: Result<(), C>)
        requires
            old(self).wf(),
        ensures
            final(self).wf(),
            exists|id: usize|
                {
                    &&& call_ensures(C::get_id, (&new_component,), id)
                    &&& (out is Err <==> has_type(old(self)@, id))
                    &&& (out is Ok ==> final(self)@ == old(self)@.push((id, new_component)))
                    &&& (out matches Err(c) ==> c == new_component && final(self)@ == old(self)@)
                },
    {
        let get_id = C::get_id;
        let id = get_id(&new_component);
        self.add_component_with_id(id, new_component)
    }

    /// Removes the component of type `type_id` from the `Entity`.
    /// If the `Entity` does not contain this type, this function has no effect.
    pub fn remove_component(&mut self, type_id: usize)
        requires
            old(self).wf(),
        ensures
            final(self)@ == without_type(old(self)@, type_id),
            final(self).wf(),
            !has_type(final(self)@, type_id),
    {
        let ghost o = self@;
        let mut kept: Vec<(usize, C)> = Vec::new();
        let mut rest: Vec<(usize, C)> = Vec::new();
        std::mem::swap(&mut rest, &mut self.components);
        let mut i: usize = 0;
        let n = rest.len();
        while i < n
            invariant
                n == o.len(),
                i <= n,
                rest@ == o.skip(i as int),
                kept@ == without_type(o.take(i as int), type_id),
            decreases n - i,
        {
            let c = rest.remove(0);
            proof {
                assert(c == o[i as int]);
                assert(rest@ =~= o.skip(i + 1));
                assert(o.take(i + 1).drop_last() =~= o.take(i as int));
                assert(o.take(i + 1).last() == o[i as int]);
            }
            if c.0 != type_id {
                kept.push(c);
            }
            i = i + 1;
        }
        proof {
            assert(o.take(n as int) =~= o);
            lemma_without_type(o, type_id);
        }
        self.components = kept;
    }

    /// Returns a shared reference to the component of type `type_id` from the `Entity`, or
    /// None if the `Entity` does not have that type of component.
    pub fn get_component(&self, type_id: usize) -> (out: Option<&C>)
        ensures
            match out {
                Some(r) => exists|i: int| 0 <= i < self@.len() && self@[i].0 == type_id && *r == self@[i].1,
                None => !has_type(self@, type_id),
            },
    {
        match self.find_component(type_id) {
            Some(i) => Some(&self.components[i].1),
            None => None,
        }
    }

    /// Returns a mutable reference to the component of type `type_id` from the `Entity`, or
    /// None if the `Entity` does not have that type of component.
    pub fn get_component_mut(&mut self, type_id: usize) -> (out: Option<&mut C>)
        ensures
            match out {
                Some(r) => exists|i: int|
                    0 <= i < old(self)@.len() && old(self)@[i].0 == type_id && *r == old(self)@[i].1
                        && final(self)@ == old(self)@.update(i, (type_id, *final(r))),
                None => !has_type(old(self)@, type_id) && final(self)@ == old(self)@,
            },
    {
        match self.find_component(type_id) {
            Some(i) => Some(&mut self.components[i].1),
            None => None,
        }
    }
}

/// After a component is added under the number `id` to an entity whose types stay distinct,
/// the entity holds a component of type `id`, every component of that type is the one added
/// (so `get_component(id)` finds it), and the other types it holds are those it held before.
pub proof fn lemma_added_component_found<C: Component>(before: Seq<(usize, C)>, id: usize, c: C)
    requires
        distinct_types(before.push((id, c))),
    ensures
        has_type(before.push((id, c)), id),
        !has_type(before, id),
        forall|i: int|
            0 <= i < before.len() + 1 && (#[trigger] before.push((id, c))[i]).0 == id ==> before.push((id, c))[i].1 == c,
        forall|k: usize| k != id ==> (has_type(before.push((id, c)), k) <==> has_type(before, k)),
{
    let after = before.push((id, c));
    assert(after[before.len() as int] == (id, c));
    assert(after[before.len() as int].0 == id);
    assert(!has_type(before, id)) by {
        if has_type(before, id) {
            let j = choose|j: int| 0 <= j < before.len() && #[trigger] before[j].0 == id;
            assert(after[j] == before[j]);
            assert(after[j].0 != after[before.len() as int].0);
        }
    }
    assert forall|i: int| 0 <= i < before.len() + 1 && (#[trigger] after[i]).0 == id implies after[i].1 == c by {
        if i < before.len() {
            assert(after[i].0 != after[before.len() as int].0);
        }
    }
    assert forall|k: usize| k != id implies (has_type(after, k) <==> has_type(before, k)) by {
        if has_type(after, k) {
            let j = choose|j: int| 0 <= j < after.len() && #[trigger] after[j].0 == k;
            assert(after[j] == before[j]);
        }
        if has_type(before, k) {
            let j = choose|j: int| 0 <= j < before.len() && #[trigger] before[j].0 == k;
            assert(after[j] == before[j]);
        }
    }
}

/// Removing the components of type `type_id` leaves no component of that type and keeps every
/// other type the entity held, with its component, in the same order.
pub proof fn lemma_removal_keeps_other_types<C>(s: Seq<(usize, C)>, type_id: usize)
    ensures
        !has_type(without_type(s, type_id), type_id),
        forall|k: usize| k != type_id ==> (has_type(without_type(s, type_id), k) <==> has_type(s, k)),
        without_type(s, type_id).len() <= s.len(),
    decreases s.len(),
{
    lemma_without_type(s, type_id);
    if s.len() > 0 {
        let p = s.drop_last();
        lemma_removal_keeps_other_types(p, type_id);
        let w = without_type(p, type_id);
        assert forall|k: usize| k != type_id implies (has_type(without_type(s, type_id), k) <==> has_type(s, k)) by {
            let w2 = without_type(s, type_id);
            if has_type(s, k) {
                let j = choose|j: int| 0 <= j < s.len() && #[trigger] s[j].0 == k;
                if j < p.len() {
                    assert(p[j] == s[j]);
                    assert(has_type(p, k));
                    let m = choose|m: int| 0 <= m < w.len() && #[trigger] w[m].0 == k;
                    if s.last().0 != type_id {
                        assert(w2[m] == w[m]);
                    }
                } else {
                    assert(s.last().0 == k);
                    assert(w2[w.len() as int] == s.last());
                }
            }
            if has_type(w2, k) {
                let m = choose|m: int| 0 <= m < w2.len() && #[trigger] w2[m].0 == k;
                if m < w.len() {
                    assert(w2[m] == w[m]);
                    assert(has_type(w, k));
                    assert(has_type(p, k));
                    let j = choose|j: int| 0 <= j < p.len() && #[trigger] p[j].0 == k;
                    assert(s[j] == p[j]);
                    assert(s[j].0 == k);
                } else {
                    assert(w2[m] == s.last());
                    assert(s[s.len() - 1] == s.last());
                }
            }
        }
    }
}

/// Whether no two of the addresses are equal.
pub fn check_distinct(addresses: &[usize]) -> (out: bool)
    ensures
        out == (forall|i: int, j: int| 0 <= i < j < addresses@.len() ==> addresses@[i] != addresses@[j]),
{
    let n = addresses.len();
    let mut i: usize = 0;
    while i < n
        invariant
            n == addresses@.len(),
            i <= n,
            forall|a: int, b: int| 0 <= a < i && a < b < n ==> addresses@[a] != addresses@[b],
        decreases n - i,
    {
        let mut j: usize = i + 1;
        while j < n
            invariant
                n == addresses@.len(),
                i < n,
                i + 1 <= j <= n,
                forall|a: int, b: int| 0 <= a < i && a < b < n ==> addresses@[a] != addresses@[b],
                forall|b: int| i < b < j ==> addresses@[i as int] != addresses@[b],
            decreases n - j,
        {
            if addresses[i] == addresses[j] {
                return false;
            }
            j = j + 1;
        }
        i = i + 1;
    }
    true
}

} // verus!
