//! Name-to-type bindings (variables and parameters in scope), kept as a list
//! of pairs with distinct names. Binding a name that is already bound
//! replaces its type where it stands; a new name goes to the end.
use vstd::prelude::*;

verus! {

pub type Binding = (Seq<char>, Seq<char>);

pub open spec fn binding_views(e: Seq<(String, String)>) -> Seq<Binding> {
    e.map_values(|p: (String, String)| (p.0@, p.1@))
}

/// The first position of a binding for `k`, or `e.len()`.
pub open spec fn key_pos(e: Seq<Binding>, k: Seq<char>) -> nat
    decreases e.len(),
{
    if e.len() == 0 {
        0
    } else if e[0].0 == k {
        0
    } else {
        1 + key_pos(e.drop_first(), k)
    }
}

pub proof fn lemma_key_pos(e: Seq<Binding>, k: Seq<char>)
    ensures
        key_pos(e, k) <= e.len(),
        forall|m: int| 0 <= m < key_pos(e, k) ==> (#[trigger] e[m]).0 != k,
        key_pos(e, k) < e.len() ==> e[key_pos(e, k) as int].0 == k,
    decreases e.len(),
{
    if e.len() > 0 && e[0].0 != k {
        lemma_key_pos(e.drop_first(), k);
        assert forall|m: int| 0 <= m < key_pos(e, k) implies (#[trigger] e[m]).0 != k by {
            if m > 0 {
                assert(e[m] == e.drop_first()[m - 1]);
            }
        }
    }
}

pub proof fn lemma_key_pos_is(e: Seq<Binding>, k: Seq<char>, j: nat)
    requires
        j <= e.len(),
        forall|m: int| 0 <= m < j ==> (#[trigger] e[m]).0 != k,
        j == e.len() || e[j as int].0 == k,
    ensures
        key_pos(e, k) == j,
    decreases j,
{
    if j > 0 {
        let t = e.drop_first();
        assert(e[0].0 != k);
        assert forall|m: int| 0 <= m < j - 1 implies (#[trigger] t[m]).0 != k by {
            assert(t[m] == e[m + 1]);
        }
        if j < e.len() {
            assert(t[j - 1] == e[j as int]);
        }
        lemma_key_pos_is(t, k, (j - 1) as nat);
    }
}

pub open spec fn keys_distinct(e: Seq<Binding>) -> bool {
    forall|i: int, j: int| 0 <= i < j < e.len() ==> (#[trigger] e[i]).0 != (#[trigger] e[j]).0
}

/// Binds `k` to `v`: replaces the type of an existing binding of `k`, or
/// appends a new one.
pub open spec fn bind(e: Seq<Binding>, k: Seq<char>, v: Seq<char>) -> Seq<Binding> {
    let j = key_pos(e, k);
    if j < e.len() {
        e.update(j as int, (k, v))
    } else {
        e.push((k, v))
    }
}

/// The bindings that a sequence of declarations, in order, leaves.
pub open spec fn bind_all(decls: Seq<Binding>) -> Seq<Binding>
    decreases decls.len(),
{
    if decls.len() == 0 {
        seq![]
    } else {
        bind(bind_all(decls.drop_last()), decls.last().0, decls.last().1)
    }
}

/// The map from each name to the type its last declaration gives it.
pub open spec fn decl_map(decls: Seq<Binding>) -> Map<Seq<char>, Seq<char>>
    decreases decls.len(),
{
    if decls.len() == 0 {
        Map::empty()
    } else {
        decl_map(decls.drop_last()).insert(decls.last().0, decls.last().1)
    }
}

/// The map that a list of bindings stands for.
pub open spec fn bindings_map(e: Seq<Binding>) -> Map<Seq<char>, Seq<char>> {
    decl_map(e)
}

pub proof fn lemma_bind_distinct(e: Seq<Binding>, k: Seq<char>, v: Seq<char>)
    requires
        keys_distinct(e),
    ensures
        keys_distinct(bind(e, k, v)),
{
    lemma_key_pos(e, k);
    let r = bind(e, k, v);
    assert forall|i: int, j: int| 0 <= i < j < r.len() implies (#[trigger] r[i]).0 != (
    #[trigger] r[j]).0 by {
        if key_pos(e, k) < e.len() {
            assert(r[i].0 == e[i].0);
            assert(r[j].0 == e[j].0);
        } else {
            if j == e.len() {
                assert(r[i] == e[i]);
            } else {
                assert(r[i] == e[i]);
                assert(r[j] == e[j]);
            }
        }
    }
}

pub proof fn lemma_map_update(e: Seq<Binding>, j: int, v: Seq<char>)
    requires
        keys_distinct(e),
        0 <= j < e.len(),
    ensures
        bindings_map(e.update(j, (e[j].0, v))) == bindings_map(e).insert(e[j].0, v),
    decreases e.len(),
{
    let k = e[j].0;
    let u = e.update(j, (k, v));
    if j == e.len() - 1 {
        assert(u.drop_last() =~= e.drop_last());
        assert(decl_map(u) =~= decl_map(e).insert(k, v));
    } else {
        let d = e.drop_last();
        assert(u.drop_last() =~= d.update(j, (k, v)));
        assert(keys_distinct(d));
        lemma_map_update(d, j, v);
        assert(e.last().0 != k);
        assert(u.last() == e.last());
        assert(decl_map(u) =~= decl_map(e).insert(k, v));
    }
}

/// Binding keeps the names distinct and binds `k` to `v` in the map.
pub proof fn lemma_bind_map(e: Seq<Binding>, k: Seq<char>, v: Seq<char>)
    requires
        keys_distinct(e),
    ensures
        keys_distinct(bind(e, k, v)),
        bindings_map(bind(e, k, v)) == bindings_map(e).insert(k, v),
{
    lemma_bind_distinct(e, k, v);
    lemma_key_pos(e, k);
    let j = key_pos(e, k);
    if j < e.len() {
        lemma_map_update(e, j as int, v);
    } else {
        assert(e.push((k, v)).drop_last() =~= e);
    }
}

/// The bindings that a run of declarations leaves have distinct names and
/// map each name to the type of its last declaration.
pub proof fn law_bindings_keep_last_declaration(decls: Seq<Binding>)
    ensures
        keys_distinct(bind_all(decls)),
        bindings_map(bind_all(decls)) == decl_map(decls),
    decreases decls.len(),
{
    if decls.len() > 0 {
        law_bindings_keep_last_declaration(decls.drop_last());
        lemma_bind_map(bind_all(decls.drop_last()), decls.last().0, decls.last().1);
    }
}

/// Binds `k` to `v` in `e`.
pub fn bind_name(e: &mut Vec<(String, String)>, k: String, v: String)
    ensures
        binding_views(final(e)@) == bind(binding_views(old(e)@), k@, v@),
{
    let ghost ev = binding_views(e@);
    let mut j: usize = 0;
    while j < e.len()
        invariant
            ev == binding_views(e@),
            e@ == old(e)@,
            j <= e.len(),
            forall|m: int| 0 <= m < j ==> (#[trigger] ev[m]).0 != k@,
        decreases e.len() - j,
    {
        assert(ev[j as int].0 == e@[j as int].0@);
        if e[j].0 == k {
            proof {
                lemma_key_pos_is(ev, k@, j as nat);
            }
            e.set(j, (k, v));
            assert(binding_views(e@) =~= ev.update(j as int, (k@, v@)));
            return;
        }
        j = j + 1;
    }
    proof {
        lemma_key_pos_is(ev, k@, j as nat);
    }
    e.push((k, v));
    assert(binding_views(e@) =~= ev.push((k@, v@)));
}

} // verus!
