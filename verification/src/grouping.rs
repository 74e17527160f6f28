use crate::component::{class_names, AnyComponent};
use crate::names::{
    lemma_name_less_irreflexive,
    lemma_name_less_total,
    lemma_name_less_transitive,
    name_le,
    name_less,
    str_eq,
    str_less,
};
use vstd::prelude::*;

verus! {

/// The runs of consecutive components that share a class name, in order.
pub open spec fn runs(s: Seq<AnyComponent>) -> Seq<Seq<AnyComponent>>
    decreases s.len(),
{
    if s.len() == 0 {
        Seq::empty()
    } else {
        let r = runs(s.drop_last());
        let x = s.last();
        if r.len() > 0 && r.last().last().class_name@ == x.class_name@ {
            r.update(r.len() - 1, r.last().push(x))
        } else {
            r.push(seq![x])
        }
    }
}

/// Each run, taken in order, files its components under their class name;
/// a later run of a class name replaces an earlier one.
pub open spec fn runs_map(rs: Seq<Seq<AnyComponent>>) -> Map<Seq<char>, Seq<AnyComponent>>
    decreases rs.len(),
{
    if rs.len() == 0 {
        Map::empty()
    } else {
        runs_map(rs.drop_last()).insert(rs.last()[0].class_name@, rs.last())
    }
}

/// The components grouped by class name, as `group_components_by_type`
/// groups them.
pub open spec fn grouped_map(s: Seq<AnyComponent>) -> Map<Seq<char>, Seq<AnyComponent>> {
    runs_map(runs(s))
}

/// The keys are in strictly increasing name order.
pub open spec fn keys_sorted(keys: Seq<Seq<char>>) -> bool {
    forall|i: int, j: int| 0 <= i < j < keys.len() ==> name_less(#[trigger] keys[i], #[trigger] keys[j])
}

/// The keys of an association list.
pub open spec fn assoc_keys<V>(entries: Seq<(Seq<char>, V)>) -> Seq<Seq<char>> {
    entries.map_values(|e: (Seq<char>, V)| e.0)
}

/// The map an association list stands for.
pub open spec fn assoc_map<V>(entries: Seq<(Seq<char>, V)>) -> Map<Seq<char>, V>
    decreases entries.len(),
{
    if entries.len() == 0 {
        Map::empty()
    } else {
        assoc_map(entries.drop_last()).insert(entries.last().0, entries.last().1)
    }
}

/// The groups of components in the form the library returns them.
pub open spec fn group_entries(groups: Seq<(String, Vec<AnyComponent>)>) -> Seq<
    (Seq<char>, Seq<AnyComponent>),
> {
    groups.map_values(|g: (String, Vec<AnyComponent>)| (g.0@, g.1@))
}

/// In an association list with sorted keys, each key maps to its own entry
/// and nothing else is in the map.
pub proof fn lemma_assoc_map_sorted<V>(entries: Seq<(Seq<char>, V)>)
    requires
        keys_sorted(assoc_keys(entries)),
    ensures
        forall|k: Seq<char>|
            #[trigger] assoc_map(entries).contains_key(k) <==> assoc_keys(entries).contains(k),
        forall|i: int|
            0 <= i < entries.len() ==> #[trigger] assoc_map(entries)[entries[i].0] == entries[i].1,
    decreases entries.len(),
{
    if entries.len() > 0 {
        let rest = entries.drop_last();
        let n = entries.len() - 1;
        let last = entries[n];
        let keys = assoc_keys(entries);
        let rkeys = assoc_keys(rest);
        assert(rkeys =~= keys.drop_last());
        lemma_assoc_map_sorted(rest);
        assert(assoc_map(entries) == assoc_map(rest).insert(last.0, last.1));
        assert forall|k: Seq<char>| #[trigger]
            assoc_map(entries).contains_key(k) <==> keys.contains(k) by {
            if keys.contains(k) {
                let i = choose|i: int| 0 <= i < keys.len() && keys[i] == k;
                if i < n {
                    assert(rkeys[i] == k);
                    assert(rkeys.contains(k));
                }
            }
            if assoc_map(entries).contains_key(k) {
                if k == last.0 {
                    assert(keys[n] == k);
                } else {
                    assert(assoc_map(rest).contains_key(k));
                    assert(rkeys.contains(k));
                    let i = choose|i: int| 0 <= i < rkeys.len() && rkeys[i] == k;
                    assert(keys[i] == k);
                }
            }
        }
        assert forall|i: int| 0 <= i < entries.len() implies #[trigger] assoc_map(
            entries,
        )[entries[i].0] == entries[i].1 by {
            if i < n {
                assert(keys[i] == entries[i].0);
                assert(keys[n] == last.0);
                assert(name_less(keys[i], keys[n]));
                lemma_name_less_irreflexive(entries[i].0);
                assert(rest[i] == entries[i]);
                assert(assoc_map(rest)[rest[i].0] == rest[i].1);
            }
        }
    }
}

/// Every run is non-empty and holds components of a single class.
pub proof fn lemma_runs_uniform(s: Seq<AnyComponent>)
    ensures
        forall|i: int|
            0 <= i < runs(s).len() ==> (#[trigger] runs(s)[i]).len() > 0 && forall|j: int|
                0 <= j < runs(s)[i].len() ==> (#[trigger] runs(s)[i][j]).class_name@ == runs(
                    s,
                )[i][0].class_name@,
    decreases s.len(),
{
    if s.len() > 0 {
        lemma_runs_uniform(s.drop_last());
        let r = runs(s.drop_last());
        if r.len() > 0 && r.last().last().class_name@ == s.last().class_name@ {
            let n = r.len() - 1;
            assert forall|i: int| 0 <= i < runs(s).len() implies (#[trigger] runs(s)[i]).len() > 0
                && forall|j: int|
                0 <= j < runs(s)[i].len() ==> (#[trigger] runs(s)[i][j]).class_name@ == runs(
                    s,
                )[i][0].class_name@ by {
                if i == n {
                    assert(runs(s)[i] == r[n].push(s.last()));
                    assert(r[n].last() == r[n][r[n].len() - 1]);
                }
            }
        }
    }
}

/// When every run is non-empty and of a single class, the map files each
/// run under the class of its components.
pub proof fn lemma_runs_map_values(rs: Seq<Seq<AnyComponent>>)
    requires
        forall|i: int|
            0 <= i < rs.len() ==> (#[trigger] rs[i]).len() > 0 && forall|j: int|
                0 <= j < rs[i].len() ==> (#[trigger] rs[i][j]).class_name@ == rs[i][0].class_name@,
    ensures
        forall|k: Seq<char>|
            #[trigger] runs_map(rs).contains_key(k) ==> runs_map(rs)[k].len() > 0 && forall|j: int|
                0 <= j < runs_map(rs)[k].len() ==> (#[trigger] runs_map(rs)[k][j]).class_name@ == k,
    decreases rs.len(),
{
    if rs.len() > 0 {
        lemma_runs_map_values(rs.drop_last());
        let last = rs[rs.len() - 1];
        assert forall|k: Seq<char>| #[trigger] runs_map(rs).contains_key(k) implies runs_map(
            rs,
        )[k].len() > 0 && forall|j: int|
            0 <= j < runs_map(rs)[k].len() ==> (#[trigger] runs_map(rs)[k][j]).class_name@ == k by {
            if k != last[0].class_name@ {
                assert(runs_map(rs.drop_last()).contains_key(k));
            }
        }
    }
}

/// Finds where `key` belongs in the sorted `groups` and files `run` there,
/// replacing a group already filed under that key.
pub fn file_group(groups: &mut Vec<(String, Vec<AnyComponent>)>, key: String, run: Vec<AnyComponent>)
    requires
        keys_sorted(assoc_keys(group_entries(old(groups)@))),
    ensures
        keys_sorted(assoc_keys(group_entries(final(groups)@))),
        assoc_map(group_entries(final(groups)@)) == assoc_map(group_entries(old(groups)@)).insert(
            key@,
            run@,
        ),
{
    let ghost old_entries = group_entries(groups@);
    let n = groups.len();
    let mut i: usize = 0;
    while i < n && str_less(groups[i].0.as_str(), key.as_str())
        invariant
            n == groups@.len(),
            groups@ == old(groups)@,
            i <= n,
            forall|j: int| 0 <= j < i ==> name_less(#[trigger] group_entries(groups@)[j].0, key@),
        decreases n - i,
    {
        i = i + 1;
    }
    proof {
        lemma_assoc_map_sorted(old_entries);
        assert(assoc_keys(old_entries) == assoc_keys(group_entries(groups@)));
    }
    let ghost new_entry = (key@, run@);
    if i < n && str_eq(groups[i].0.as_str(), key.as_str()) {
        groups.set(i, (key, run));
        proof {
            let new_entries = group_entries(groups@);
            assert(new_entries =~= old_entries.update(i as int, new_entry));
            assert(assoc_keys(new_entries) =~= assoc_keys(old_entries));
            lemma_assoc_map_sorted(new_entries);
            assert(assoc_map(new_entries) =~= assoc_map(old_entries).insert(key@, run@)) by {
                assert forall|k: Seq<char>| #[trigger]
                    assoc_map(new_entries).contains_key(k) implies assoc_map(
                    old_entries,
                ).insert(key@, run@)[k] == assoc_map(new_entries)[k] by {
                    let j = choose|j: int|
                        0 <= j < new_entries.len() && assoc_keys(new_entries)[j] == k;
                    assert(new_entries[j].0 == k);
                    assert(assoc_map(new_entries)[new_entries[j].0] == new_entries[j].1);
                    assert(old_entries[i as int].0 == key@);
                    if j != i {
                        assert(new_entries[j] == old_entries[j]);
                        assert(assoc_map(old_entries)[old_entries[j].0] == old_entries[j].1);
                        if j < i {
                            assert(name_less(assoc_keys(old_entries)[j], assoc_keys(old_entries)[i as int]));
                        } else {
                            assert(name_less(assoc_keys(old_entries)[i as int], assoc_keys(old_entries)[j]));
                        }
                        lemma_name_less_irreflexive(k);
                    }
                }
                assert forall|k: Seq<char>|
                    assoc_map(old_entries).insert(key@, run@).contains_key(k) implies #[trigger]
                    assoc_map(new_entries).contains_key(k) by {
                    if k != key@ {
                        let j = choose|j: int|
                            0 <= j < old_entries.len() && assoc_keys(old_entries)[j] == k;
                        assert(assoc_keys(new_entries)[j] == k);
                    } else {
                        assert(assoc_keys(new_entries)[i as int] == k);
                    }
                }
            }
        }
    } else {
        proof {
            // Every key from position `i` on comes after `key`.
            assert forall|j: int| i <= j < n implies name_less(
                key@,
                #[trigger] old_entries[j].0,
            ) by {
                lemma_name_less_total(key@, old_entries[i as int].0);
                if j > i {
                    assert(name_less(assoc_keys(old_entries)[i as int], assoc_keys(old_entries)[j]));
                    lemma_name_less_transitive(key@, old_entries[i as int].0, old_entries[j].0);
                }
            }
        }
        groups.insert(i, (key, run));
        proof {
            let new_entries = group_entries(groups@);
            assert(new_entries =~= old_entries.insert(i as int, new_entry));
            assert forall|a: int, b: int|
                0 <= a < b < new_entries.len() implies name_less(
                #[trigger] assoc_keys(new_entries)[a],
                #[trigger] assoc_keys(new_entries)[b],
            ) by {
                if b < i {
                    assert(name_less(assoc_keys(old_entries)[a], assoc_keys(old_entries)[b]));
                } else if b == i {
                } else if a < i {
                    assert(name_less(old_entries[a].0, key@));
                    lemma_name_less_transitive(old_entries[a].0, key@, old_entries[b - 1].0);
                } else if a == i {
                } else {
                    assert(name_less(
                        assoc_keys(old_entries)[a - 1],
                        assoc_keys(old_entries)[b - 1],
                    ));
                }
            }
            lemma_assoc_map_sorted(new_entries);
            assert(assoc_map(new_entries) =~= assoc_map(old_entries).insert(key@, run@)) by {
                assert forall|k: Seq<char>| #[trigger]
                    assoc_map(new_entries).contains_key(k) implies assoc_map(
                    old_entries,
                ).insert(key@, run@).contains_key(k) && assoc_map(old_entries).insert(
                    key@,
                    run@,
                )[k] == assoc_map(new_entries)[k] by {
                    let j = choose|j: int|
                        0 <= j < new_entries.len() && assoc_keys(new_entries)[j] == k;
                    assert(new_entries[j].0 == k);
                    if j < i {
                        assert(assoc_keys(old_entries)[j] == k);
                        lemma_name_less_irreflexive(key@);
                    } else if j > i {
                        assert(assoc_keys(old_entries)[j - 1] == k);
                        lemma_name_less_irreflexive(key@);
                    }
                }
                assert forall|k: Seq<char>|
                    assoc_map(old_entries).insert(key@, run@).contains_key(k) implies #[trigger]
                    assoc_map(new_entries).contains_key(k) by {
                    if k != key@ {
                        let j = choose|j: int|
                            0 <= j < old_entries.len() && assoc_keys(old_entries)[j] == k;
                        if j < i {
                            assert(assoc_keys(new_entries)[j] == k);
                        } else {
                            assert(assoc_keys(new_entries)[j + 1] == k);
                        }
                    } else {
                        assert(assoc_keys(new_entries)[i as int] == k);
                    }
                }
            }
        }
    }
}

/// Groups consecutive components of the same class; a later group of a class
/// replaces an earlier one. The groups come out in name order.
pub fn group_components_by_type(components: Vec<AnyComponent>) -> (groups: Vec<
    (String, Vec<AnyComponent>),
>)
    ensures
        keys_sorted(assoc_keys(group_entries(groups@))),
        assoc_map(group_entries(groups@)) == grouped_map(components@),
        forall|i: int|
            0 <= i < groups@.len() ==> (#[trigger] groups@[i]).1@.len() > 0 && forall|j: int|
                0 <= j < groups@[i].1@.len() ==> (#[trigger] groups@[i].1@[j]).class_name@
                    == groups@[i].0@,
{
    let ghost all = components@;
    let mut rest = components;
    let mut groups: Vec<(String, Vec<AnyComponent>)> = Vec::new();
    if rest.len() == 0 {
        assert(runs(all) =~= Seq::<Seq<AnyComponent>>::empty());
        assert(group_entries(groups@) =~= Seq::empty());
        assert(assoc_map(group_entries(groups@)) =~= grouped_map(all));
        return groups;
    }
    let first = rest.remove(0);
    let mut cur_key = first.class_name.clone();
    let mut cur_run: Vec<AnyComponent> = Vec::new();
    cur_run.push(first);
    let ghost mut closed: Seq<Seq<AnyComponent>> = Seq::empty();
    let ghost mut k: int = 1;
    proof {
        assert(all.take(1).drop_last() =~= Seq::<AnyComponent>::empty());
        assert(runs(all.take(1).drop_last()) =~= Seq::<Seq<AnyComponent>>::empty());
        assert(all.take(1).last() == all[0]);
        assert(runs(all.take(1)) =~= seq![seq![all[0]]]);
        assert(cur_run@ =~= seq![all[0]]);
        assert(group_entries(groups@) =~= Seq::empty());
    }
    while rest.len() > 0
        invariant
            0 < k <= all.len(),
            rest@ == all.skip(k),
            runs(all.take(k)) == closed.push(cur_run@),
            cur_run@.len() > 0,
            cur_run@.last().class_name@ == cur_key@,
            forall|j: int|
                0 <= j < cur_run@.len() ==> (#[trigger] cur_run@[j]).class_name@ == cur_key@,
            keys_sorted(assoc_keys(group_entries(groups@))),
            assoc_map(group_entries(groups@)) == runs_map(closed),
        decreases rest@.len(),
    {
        let x = rest.remove(0);
        proof {
            assert(all.take(k + 1).drop_last() =~= all.take(k));
            assert(all.take(k + 1).last() == x);
            assert(rest@ =~= all.skip(k + 1));
        }
        if str_eq(x.class_name.as_str(), cur_key.as_str()) {
            cur_run.push(x);
            proof {
                assert(runs(all.take(k + 1)) =~= closed.push(cur_run@));
            }
        } else {
            let new_key = x.class_name.clone();
            let mut new_run: Vec<AnyComponent> = Vec::new();
            new_run.push(x);
            let mut old_run = new_run;
            std::mem::swap(&mut old_run, &mut cur_run);
            let mut old_key = new_key;
            std::mem::swap(&mut old_key, &mut cur_key);
            proof {
                assert(old_run@[0].class_name@ == old_key@);
                assert(runs(all.take(k + 1)) =~= closed.push(old_run@).push(cur_run@));
                assert(closed.push(old_run@).drop_last() =~= closed);
            }
            let ghost before = groups@;
            file_group(&mut groups, old_key, old_run);
            proof {
                closed = closed.push(old_run@);
            }
        }
        proof {
            k = k + 1;
        }
    }
    proof {
        assert(all.take(k) =~= all);
        assert(closed.push(cur_run@).drop_last() =~= closed);
        assert(cur_run@[0].class_name@ == cur_key@);
    }
    file_group(&mut groups, cur_key, cur_run);
    proof {
        let entries = group_entries(groups@);
        lemma_runs_uniform(all);
        lemma_runs_map_values(runs(all));
        lemma_assoc_map_sorted(entries);
        assert forall|i: int| 0 <= i < groups@.len() implies (#[trigger] groups@[i]).1@.len() > 0
            && forall|j: int|
            0 <= j < groups@[i].1@.len() ==> (#[trigger] groups@[i].1@[j]).class_name@
                == groups@[i].0@ by {
            assert(entries[i] == (groups@[i].0@, groups@[i].1@));
            assert(assoc_keys(entries)[i] == groups@[i].0@);
            assert(assoc_keys(entries).contains(groups@[i].0@));
            assert(assoc_map(entries)[entries[i].0] == entries[i].1);
            assert(grouped_map(all).contains_key(groups@[i].0@));
        }
    }
    groups
}

/// `x` placed into `s` after every component whose class name does not come
/// after its own.
pub open spec fn insert_by_name(s: Seq<AnyComponent>, x: AnyComponent) -> Seq<AnyComponent>
    decreases s.len(),
{
    if s.len() == 0 {
        seq![x]
    } else if name_less(x.class_name@, s.last().class_name@) {
        insert_by_name(s.drop_last(), x).push(s.last())
    } else {
        s.push(x)
    }
}

/// The components stably sorted by class name: components of the same class
/// keep their order.
pub open spec fn sorted_by_name(s: Seq<AnyComponent>) -> Seq<AnyComponent>
    decreases s.len(),
{
    if s.len() == 0 {
        s
    } else {
        insert_by_name(sorted_by_name(s.drop_last()), s.last())
    }
}

/// The class names never decrease along the sequence.
pub open spec fn names_ordered(s: Seq<AnyComponent>) -> bool {
    forall|i: int, j: int|
        0 <= i < j < s.len() ==> name_le(#[trigger] s[i].class_name@, #[trigger] s[j].class_name@)
}

proof fn lemma_name_le_transitive(a: Seq<char>, b: Seq<char>, c: Seq<char>)
    requires
        name_le(a, b),
        name_le(b, c),
    ensures
        name_le(a, c),
{
    if name_less(a, b) && name_less(b, c) {
        lemma_name_less_transitive(a, b, c);
    }
}

/// Inserting into an ordered sequence keeps it ordered and keeps its elements.
pub proof fn lemma_insert_by_name(s: Seq<AnyComponent>, x: AnyComponent)
    requires
        names_ordered(s),
    ensures
        names_ordered(insert_by_name(s, x)),
        insert_by_name(s, x).to_multiset() == s.to_multiset().insert(x),
        insert_by_name(s, x).len() == s.len() + 1,
    decreases s.len(),
{
    broadcast use vstd::multiset::group_multiset_axioms, vstd::seq_lib::group_to_multiset_ensures;

    if s.len() == 0 {
        assert(seq![x] =~= Seq::<AnyComponent>::empty().push(x));
    } else if name_less(x.class_name@, s.last().class_name@) {
        let rest = s.drop_last();
        assert(names_ordered(rest));
        lemma_insert_by_name(rest, x);
        let t = insert_by_name(rest, x);
        let r = t.push(s.last());
        assert(s =~= rest.push(s.last()));
        assert forall|i: int, j: int| 0 <= i < j < r.len() implies name_le(
            #[trigger] r[i].class_name@,
            #[trigger] r[j].class_name@,
        ) by {
            if j == r.len() - 1 {
                // Every element of `t` is `x` or an element of `rest`.
                assert(t.to_multiset().count(t[i]) > 0);
                assert(t.to_multiset().contains(t[i]));
                if t[i] != x {
                    assert(rest.to_multiset().contains(t[i]));
                    assert(rest.contains(t[i]));
                    let k = choose|k: int| 0 <= k < rest.len() && rest[k] == t[i];
                    assert(s[k] == rest[k]);
                    assert(s[s.len() - 1] == s.last());
                }
            }
        }
    } else {
        assert forall|i: int, j: int| 0 <= i < j < s.push(x).len() implies name_le(
            #[trigger] s.push(x)[i].class_name@,
            #[trigger] s.push(x)[j].class_name@,
        ) by {
            if j == s.len() {
                lemma_name_less_total(x.class_name@, s.last().class_name@);
                if i < s.len() - 1 {
                    assert(name_le(s[i].class_name@, s[s.len() - 1].class_name@));
                    lemma_name_le_transitive(
                        s[i].class_name@,
                        s.last().class_name@,
                        x.class_name@,
                    );
                }
            }
        }
    }
}

/// The stable sort by class name orders the names and keeps the components.
pub proof fn lemma_sorted_by_name(s: Seq<AnyComponent>)
    ensures
        names_ordered(sorted_by_name(s)),
        sorted_by_name(s).to_multiset() == s.to_multiset(),
        sorted_by_name(s).len() == s.len(),
    decreases s.len(),
{
    broadcast use vstd::multiset::group_multiset_axioms, vstd::seq_lib::group_to_multiset_ensures;

    if s.len() > 0 {
        lemma_sorted_by_name(s.drop_last());
        lemma_insert_by_name(sorted_by_name(s.drop_last()), s.last());
        assert(s =~= s.drop_last().push(s.last()));
    }
}

/// Whether a component is of the class `name`.
pub open spec fn of_class_name(name: Seq<char>) -> spec_fn(AnyComponent) -> bool {
    |c: AnyComponent| c.class_name@ == name
}

/// Keeping the components of one class after one more component.
proof fn lemma_filter_push(t: Seq<AnyComponent>, x: AnyComponent, name: Seq<char>)
    ensures
        t.push(x).filter(of_class_name(name)) == if x.class_name@ == name {
            t.filter(of_class_name(name)).push(x)
        } else {
            t.filter(of_class_name(name))
        },
{
    reveal(Seq::filter);
    assert(t.push(x).drop_last() =~= t);
}

/// Inserting a component keeps the order of the components of each class,
/// the inserted one coming after those of its class.
proof fn lemma_insert_keeps_class_order(t: Seq<AnyComponent>, x: AnyComponent, name: Seq<char>)
    ensures
        insert_by_name(t, x).filter(of_class_name(name)) == if x.class_name@ == name {
            t.filter(of_class_name(name)).push(x)
        } else {
            t.filter(of_class_name(name))
        },
    decreases t.len(),
{
    if t.len() == 0 {
        assert(seq![x] =~= t.push(x));
        lemma_filter_push(t, x, name);
    } else if name_less(x.class_name@, t.last().class_name@) {
        let rest = t.drop_last();
        lemma_insert_keeps_class_order(rest, x, name);
        lemma_filter_push(insert_by_name(rest, x), t.last(), name);
        lemma_filter_push(rest, t.last(), name);
        assert(rest.push(t.last()) =~= t);
        if x.class_name@ == name {
            lemma_name_less_irreflexive(name);
            assert(t.last().class_name@ != name);
        }
    } else {
        lemma_filter_push(t, x, name);
    }
}

/// The sort by class name is stable: the components of each class come in
/// the order they were given.
pub proof fn lemma_sort_keeps_class_order(s: Seq<AnyComponent>, name: Seq<char>)
    ensures
        sorted_by_name(s).filter(of_class_name(name)) == s.filter(of_class_name(name)),
    decreases s.len(),
{
    if s.len() > 0 {
        let rest = s.drop_last();
        lemma_sort_keeps_class_order(rest, name);
        lemma_insert_keeps_class_order(sorted_by_name(rest), s.last(), name);
        lemma_filter_push(rest, s.last(), name);
        assert(rest.push(s.last()) =~= s);
    } else {
        assert(sorted_by_name(s) == s);
    }
}

/// Components already in class-name order are left as they are.
pub proof fn lemma_sorted_by_name_ordered(s: Seq<AnyComponent>)
    requires
        names_ordered(s),
    ensures
        sorted_by_name(s) == s,
    decreases s.len(),
{
    if s.len() > 0 {
        let rest = s.drop_last();
        assert(names_ordered(rest));
        lemma_sorted_by_name_ordered(rest);
        if rest.len() > 0 {
            let a = rest.last().class_name@;
            let b = s.last().class_name@;
            assert(name_le(s[s.len() - 2].class_name@, s[s.len() - 1].class_name@));
            lemma_name_less_total(a, b);
            lemma_name_less_irreflexive(a);
            assert(!name_less(b, a));
        }
        assert(s =~= rest.push(s.last()));
    }
}

/// Sorts the components by class name, keeping the order of components of
/// the same class.
pub fn sort_components_by_name(components: Vec<AnyComponent>) -> (sorted: Vec<AnyComponent>)
    ensures
        sorted@ == sorted_by_name(components@),
        names_ordered(sorted@),
        sorted@.to_multiset() == components@.to_multiset(),
{
    let ghost all = components@;
    let mut rest = components;
    let mut sorted: Vec<AnyComponent> = Vec::new();
    let ghost mut k: int = 0;
    assert(all.take(0) =~= Seq::<AnyComponent>::empty());
    while rest.len() > 0
        invariant
            0 <= k <= all.len(),
            rest@ == all.skip(k),
            sorted@ == sorted_by_name(all.take(k)),
        decreases rest@.len(),
    {
        let x = rest.remove(0);
        let ghost s = sorted@;
        let mut pos = sorted.len();
        assert(s.take(pos as int) =~= s);
        assert(s.skip(pos as int) =~= Seq::<AnyComponent>::empty());
        while pos > 0 && str_less(x.class_name.as_str(), sorted[pos - 1].class_name.as_str())
            invariant
                sorted@ == s,
                pos <= s.len(),
                insert_by_name(s, x) == insert_by_name(s.take(pos as int), x) + s.skip(
                    pos as int,
                ),
            decreases pos,
        {
            proof {
                let t = s.take(pos as int);
                assert(t.drop_last() =~= s.take(pos - 1));
                assert(t.last() == s[pos - 1]);
                assert(s.skip(pos - 1) =~= seq![s[pos - 1]] + s.skip(pos as int));
                assert(insert_by_name(t, x) == insert_by_name(s.take(pos - 1), x).push(s[pos - 1]));
                assert(insert_by_name(s.take(pos - 1), x).push(s[pos - 1]) + s.skip(pos as int)
                    =~= insert_by_name(s.take(pos - 1), x) + s.skip(pos - 1));
            }
            pos = pos - 1;
        }
        proof {
            let t = s.take(pos as int);
            if pos == 0 {
                assert(t =~= Seq::<AnyComponent>::empty());
            }
            assert(insert_by_name(t, x) == t.push(x));
        }
        sorted.insert(pos, x);
        proof {
            assert(sorted@ =~= s.take(pos as int).push(x) + s.skip(pos as int));
            assert(all.take(k + 1).drop_last() =~= all.take(k));
            assert(all.take(k + 1).last() == x);
            assert(rest@ =~= all.skip(k + 1));
            k = k + 1;
        }
    }
    proof {
        assert(all.take(k) =~= all);
        lemma_sorted_by_name(all);
    }
    sorted
}

/// The runs of equal consecutive names, as (name, length of the run).
pub open spec fn name_runs(names: Seq<Seq<char>>) -> Seq<(Seq<char>, nat)>
    decreases names.len(),
{
    if names.len() == 0 {
        Seq::empty()
    } else {
        let r = name_runs(names.drop_last());
        let x = names.last();
        if r.len() > 0 && r.last().0 == x {
            r.update(r.len() - 1, (x, r.last().1 + 1))
        } else {
            r.push((x, 1nat))
        }
    }
}

/// The number of components that each class keeps once the components with
/// these class names are grouped run by run: the length of the run of the
/// class. On names in class-name order, as archetypes keep them, each class
/// has a single run, so this is the number of components of the class.
pub open spec fn name_layout(names: Seq<Seq<char>>) -> Map<Seq<char>, nat> {
    assoc_map(name_runs(names))
}

/// How many times `k` occurs among the names.
pub open spec fn name_count(names: Seq<Seq<char>>, k: Seq<char>) -> nat
    decreases names.len(),
{
    if names.len() == 0 {
        0
    } else {
        name_count(names.drop_last(), k) + if names.last() == k {
            1nat
        } else {
            0nat
        }
    }
}

/// A name that does not occur is counted zero times.
proof fn lemma_name_count_absent(names: Seq<Seq<char>>, k: Seq<char>)
    requires
        !names.contains(k),
    ensures
        name_count(names, k) == 0,
    decreases names.len(),
{
    if names.len() > 0 {
        let rest = names.drop_last();
        if rest.contains(k) {
            let i = choose|i: int| 0 <= i < rest.len() && rest[i] == k;
            assert(names[i] == k);
        }
        lemma_name_count_absent(rest, k);
        assert(names[names.len() - 1] == names.last());
    }
}

/// The last run is that of the last name.
proof fn lemma_name_runs_last(names: Seq<Seq<char>>)
    requires
        names.len() > 0,
    ensures
        name_runs(names).len() > 0,
        name_runs(names).last().0 == names.last(),
{
}

/// On names in class-name order, the layout knows exactly the names that
/// occur, and gives each the number of times it occurs.
pub proof fn lemma_name_layout_counts(names: Seq<Seq<char>>)
    requires
        forall|i: int, j: int|
            0 <= i < j < names.len() ==> name_le(#[trigger] names[i], #[trigger] names[j]),
    ensures
        forall|k: Seq<char>| #[trigger] name_layout(names).contains_key(k) <==> names.contains(k),
        forall|k: Seq<char>| names.contains(k) ==> #[trigger] name_layout(names)[k] == name_count(names, k),
    decreases names.len(),
{
    if names.len() > 0 {
        let rest = names.drop_last();
        let x = names.last();
        let n = names.len() - 1;
        assert(names[n] == x);
        assert forall|i: int, j: int| 0 <= i < j < rest.len() implies name_le(
            #[trigger] rest[i],
            #[trigger] rest[j],
        ) by {
            assert(rest[i] == names[i]);
            assert(rest[j] == names[j]);
        }
        lemma_name_layout_counts(rest);
        let r = name_runs(rest);
        let before = assoc_map(r);
        assert(name_layout(rest) == before);
        assert forall|k: Seq<char>| #[trigger] names.contains(k) <==> rest.contains(k) || k == x by {
            if names.contains(k) {
                let i = choose|i: int| 0 <= i < names.len() && names[i] == k;
                if i < n {
                    assert(rest[i] == k);
                }
            }
            if rest.contains(k) {
                let i = choose|i: int| 0 <= i < rest.len() && rest[i] == k;
                assert(names[i] == k);
            }
        }
        if r.len() > 0 && r.last().0 == x {
            let c = r.last().1;
            let r2 = r.update(r.len() - 1, (x, c + 1));
            assert(name_runs(names) == r2);
            assert(r2.drop_last() =~= r.drop_last());
            assert(r2.last() == (x, c + 1));
            assert(assoc_map(r2) == assoc_map(r.drop_last()).insert(x, c + 1));
            assert(before == assoc_map(r.drop_last()).insert(x, c));
            assert(before[x] == c);
            lemma_name_runs_last(rest);
            assert(rest.last() == x);
            assert(rest[rest.len() - 1] == x);
            assert(rest.contains(x));
            assert(name_layout(names) =~= before.insert(x, c + 1));
        } else {
            assert(name_runs(names) == r.push((x, 1nat)));
            assert(r.push((x, 1nat)).drop_last() =~= r);
            assert(name_layout(names) =~= before.insert(x, 1nat));
            if rest.contains(x) {
                let i = choose|i: int| 0 <= i < rest.len() && rest[i] == x;
                lemma_name_runs_last(rest);
                let y = rest.last();
                assert(rest[rest.len() - 1] == y);
                assert(y != x);
                assert(name_le(names[n - 1], names[n]));
                assert(names[n - 1] == y);
                assert(name_less(y, x));
                if i < rest.len() - 1 {
                    assert(name_le(names[i], names[n - 1]));
                    assert(names[i] == x);
                    if x != y {
                        lemma_name_less_total(x, y);
                    }
                } else {
                    assert(rest[i] == y);
                }
            }
            lemma_name_count_absent(rest, x);
        }
        assert forall|k: Seq<char>| names.contains(k) implies #[trigger] name_layout(names)[k]
            == name_count(names, k) by {
            if k != x {
                assert(rest.contains(k));
            }
        }
    }
}

/// Each name that occurs, with the number of times it occurs.
pub open spec fn name_counts(names: Seq<Seq<char>>) -> Map<Seq<char>, nat> {
    Map::new(|k: Seq<char>| names.contains(k), |k: Seq<char>| name_count(names, k))
}

/// A name occurs exactly when it is counted at least once.
pub proof fn lemma_name_count_positive(names: Seq<Seq<char>>, k: Seq<char>)
    ensures
        names.contains(k) <==> name_count(names, k) > 0,
    decreases names.len(),
{
    if names.len() > 0 {
        let rest = names.drop_last();
        lemma_name_count_positive(rest, k);
        if rest.contains(k) {
            let i = choose|i: int| 0 <= i < rest.len() && rest[i] == k;
            assert(names[i] == k);
        }
        if names.contains(k) && names.last() != k {
            let i = choose|i: int| 0 <= i < names.len() && names[i] == k;
            assert(i != names.len() - 1);
            assert(rest[i] == k);
        }
        if names.last() == k {
            assert(names[names.len() - 1] == k);
        }
    }
}

/// On names in class-name order, the layout of runs is the count of each
/// name.
pub proof fn lemma_name_layout_is_counts(names: Seq<Seq<char>>)
    requires
        forall|i: int, j: int|
            0 <= i < j < names.len() ==> name_le(#[trigger] names[i], #[trigger] names[j]),
    ensures
        name_layout(names) == name_counts(names),
{
    lemma_name_layout_counts(names);
    assert(name_layout(names) =~= name_counts(names));
}

/// Names counted alike give the same counts.
pub proof fn lemma_name_counts_equal(a: Seq<Seq<char>>, b: Seq<Seq<char>>)
    requires
        forall|k: Seq<char>| name_count(a, k) == name_count(b, k),
    ensures
        name_counts(a) == name_counts(b),
{
    assert forall|k: Seq<char>| a.contains(k) <==> b.contains(k) by {
        lemma_name_count_positive(a, k);
        lemma_name_count_positive(b, k);
    }
    assert(name_counts(a) =~= name_counts(b));
}

/// The class names of a sequence one longer are counted one more for the
/// class of the last.
proof fn lemma_name_count_push(s: Seq<AnyComponent>, x: AnyComponent, k: Seq<char>)
    ensures
        name_count(class_names(s.push(x)), k) == name_count(class_names(s), k) + if x.class_name@
            == k {
            1nat
        } else {
            0nat
        },
{
    assert(class_names(s.push(x)).drop_last() =~= class_names(s));
    assert(class_names(s.push(x)).last() == x.class_name@);
}

/// Inserting a component counts its class once more.
proof fn lemma_name_count_insert(s: Seq<AnyComponent>, x: AnyComponent, k: Seq<char>)
    ensures
        name_count(class_names(insert_by_name(s, x)), k) == name_count(class_names(s), k)
            + if x.class_name@ == k {
            1nat
        } else {
            0nat
        },
    decreases s.len(),
{
    if s.len() == 0 {
        assert(seq![x] =~= s.push(x));
        lemma_name_count_push(s, x, k);
    } else if name_less(x.class_name@, s.last().class_name@) {
        let rest = s.drop_last();
        lemma_name_count_insert(rest, x, k);
        lemma_name_count_push(insert_by_name(rest, x), s.last(), k);
        lemma_name_count_push(rest, s.last(), k);
        assert(rest.push(s.last()) =~= s);
    } else {
        lemma_name_count_push(s, x, k);
    }
}

/// Sorting by class name keeps how many components a class has.
proof fn lemma_sorted_name_count(s: Seq<AnyComponent>, k: Seq<char>)
    ensures
        name_count(class_names(sorted_by_name(s)), k) == name_count(class_names(s), k),
    decreases s.len(),
{
    if s.len() > 0 {
        let rest = s.drop_last();
        lemma_sorted_name_count(rest, k);
        lemma_name_count_insert(sorted_by_name(rest), s.last(), k);
        lemma_name_count_push(rest, s.last(), k);
        assert(rest.push(s.last()) =~= s);
    }
}

/// Sorting by class name keeps how many components each class has.
pub proof fn lemma_sorted_name_counts(s: Seq<AnyComponent>)
    ensures
        name_counts(class_names(sorted_by_name(s))) == name_counts(class_names(s)),
{
    assert forall|k: Seq<char>| name_count(class_names(sorted_by_name(s)), k) == name_count(
        class_names(s),
        k,
    ) by {
        lemma_sorted_name_count(s, k);
    }
    lemma_name_counts_equal(class_names(sorted_by_name(s)), class_names(s));
}

/// The runs of components follow the runs of their class names.
pub proof fn lemma_runs_shape(s: Seq<AnyComponent>)
    ensures
        runs(s).len() == name_runs(crate::component::class_names(s)).len(),
        forall|i: int|
            0 <= i < runs(s).len() ==> (#[trigger] runs(s)[i]).len() > 0 && runs(s)[i].len()
                == name_runs(crate::component::class_names(s))[i].1 && runs(s)[i][0].class_name@
                == name_runs(crate::component::class_names(s))[i].0,
    decreases s.len(),
{
    let names = crate::component::class_names(s);
    if s.len() > 0 {
        let rest = s.drop_last();
        assert(crate::component::class_names(rest) =~= names.drop_last());
        lemma_runs_shape(rest);
        lemma_runs_uniform(rest);
        let r = runs(rest);
        if r.len() > 0 {
            assert(r.last() == r[r.len() - 1]);
            assert(r.last().last() == r[r.len() - 1][r[r.len() - 1].len() - 1]);
        }
    }
}

/// Grouping components files, under each class name the layout knows, as
/// many components as the layout says.
pub proof fn lemma_grouped_layout(s: Seq<AnyComponent>)
    ensures
        forall|k: Seq<char>|
            #[trigger] grouped_map(s).contains_key(k) <==> name_layout(
                crate::component::class_names(s),
            ).contains_key(k),
        forall|k: Seq<char>|
            #[trigger] grouped_map(s).contains_key(k) ==> grouped_map(s)[k].len() == name_layout(
                crate::component::class_names(s),
            )[k],
{
    lemma_runs_shape(s);
    lemma_runs_map_layout(runs(s), name_runs(crate::component::class_names(s)));
}

proof fn lemma_runs_map_layout(rs: Seq<Seq<AnyComponent>>, nr: Seq<(Seq<char>, nat)>)
    requires
        rs.len() == nr.len(),
        forall|i: int|
            0 <= i < rs.len() ==> (#[trigger] rs[i]).len() > 0 && rs[i].len() == nr[i].1
                && rs[i][0].class_name@ == nr[i].0,
    ensures
        forall|k: Seq<char>| #[trigger]
            runs_map(rs).contains_key(k) <==> assoc_map(nr).contains_key(k),
        forall|k: Seq<char>| #[trigger]
            runs_map(rs).contains_key(k) ==> runs_map(rs)[k].len() == assoc_map(nr)[k],
    decreases rs.len(),
{
    if rs.len() > 0 {
        let n = rs.len() - 1;
        lemma_runs_map_layout(rs.drop_last(), nr.drop_last());
        assert(rs.last() == rs[n]);
        assert(nr.last() == nr[n]);
        let key = rs[n][0].class_name@;
        assert(runs_map(rs) == runs_map(rs.drop_last()).insert(key, rs[n]));
        assert(assoc_map(nr) == assoc_map(nr.drop_last()).insert(key, nr[n].1));
        assert forall|k: Seq<char>| #[trigger] runs_map(rs).contains_key(k) implies runs_map(
            rs,
        )[k].len() == assoc_map(nr)[k] by {
            if k != key {
                assert(runs_map(rs.drop_last()).contains_key(k));
            }
        }
    }
}


/// The components filed under `keys` in `m`, key after key.
pub open spec fn concat_groups(keys: Seq<Seq<char>>, m: Map<Seq<char>, Seq<AnyComponent>>) -> Seq<
    AnyComponent,
>
    decreases keys.len(),
{
    if keys.len() == 0 {
        Seq::empty()
    } else {
        concat_groups(keys.drop_last(), m) + m[keys.last()]
    }
}

/// The runs put back one after the other.
pub open spec fn flatten_runs(rs: Seq<Seq<AnyComponent>>) -> Seq<AnyComponent>
    decreases rs.len(),
{
    if rs.len() == 0 {
        Seq::empty()
    } else {
        flatten_runs(rs.drop_last()) + rs.last()
    }
}

/// The class names of the runs.
pub open spec fn run_keys(rs: Seq<Seq<AnyComponent>>) -> Seq<Seq<char>> {
    rs.map_values(|r: Seq<AnyComponent>| r[0].class_name@)
}

/// The runs as an association list keyed by their class names.
pub open spec fn run_entries(rs: Seq<Seq<AnyComponent>>) -> Seq<(Seq<char>, Seq<AnyComponent>)> {
    rs.map_values(|r: Seq<AnyComponent>| (r[0].class_name@, r))
}

/// Putting the runs back together gives the components again, and the last
/// run ends with the last component.
proof fn lemma_flatten_runs(s: Seq<AnyComponent>)
    ensures
        flatten_runs(runs(s)) == s,
        s.len() > 0 ==> runs(s).len() > 0 && runs(s).last().len() > 0 && runs(s).last().last()
            == s.last(),
    decreases s.len(),
{
    if s.len() > 0 {
        let rest = s.drop_last();
        let x = s.last();
        lemma_flatten_runs(rest);
        let r = runs(rest);
        if r.len() > 0 && r.last().last().class_name@ == x.class_name@ {
            let u = r.update(r.len() - 1, r.last().push(x));
            assert(u.drop_last() =~= r.drop_last());
            assert(flatten_runs(r) == flatten_runs(r.drop_last()) + r.last());
            assert(flatten_runs(u) == flatten_runs(r.drop_last()) + r.last().push(x));
            assert(flatten_runs(u) =~= flatten_runs(r).push(x));
        } else {
            assert(r.push(seq![x]).drop_last() =~= r);
            assert(flatten_runs(r.push(seq![x])) =~= flatten_runs(r).push(x));
        }
        assert(s =~= rest.push(x));
    }
}

/// The runs of components whose names never decrease have strictly
/// increasing class names.
proof fn lemma_ordered_run_keys(s: Seq<AnyComponent>)
    requires
        names_ordered(s),
    ensures
        keys_sorted(run_keys(runs(s))),
        s.len() > 0 ==> run_keys(runs(s)).last() == s.last().class_name@,
    decreases s.len(),
{
    if s.len() > 0 {
        let rest = s.drop_last();
        let x = s.last();
        assert(names_ordered(rest));
        lemma_ordered_run_keys(rest);
        lemma_flatten_runs(rest);
        lemma_runs_uniform(s);
        let r = runs(rest);
        let rk = run_keys(r);
        if r.len() > 0 && r.last().last().class_name@ == x.class_name@ {
            let u = r.update(r.len() - 1, r.last().push(x));
            assert(run_keys(u) =~= rk);
            assert(u.last()[0] == r.last()[0]);
            lemma_runs_uniform(rest);
            assert(r.last()[0].class_name@ == r.last()[r.last().len() - 1].class_name@);
        } else {
            let u = r.push(seq![x]);
            assert(run_keys(u) =~= rk.push(x.class_name@));
            if r.len() > 0 {
                lemma_runs_uniform(rest);
                let last_key = rk.last();
                assert(last_key == rest.last().class_name@);
                assert(rest.last() == s[s.len() - 2]);
                assert(name_le(s[s.len() - 2].class_name@, s[s.len() - 1].class_name@));
                assert(name_less(last_key, x.class_name@));
                assert forall|i: int, j: int|
                    0 <= i < j < run_keys(u).len() implies name_less(
                    #[trigger] run_keys(u)[i],
                    #[trigger] run_keys(u)[j],
                ) by {
                    if j == run_keys(u).len() - 1 {
                        if i < rk.len() - 1 {
                            assert(name_less(rk[i], rk[rk.len() - 1]));
                            lemma_name_less_transitive(rk[i], last_key, x.class_name@);
                        }
                    } else {
                        assert(run_keys(u)[i] == rk[i]);
                        assert(run_keys(u)[j] == rk[j]);
                    }
                }
            }
        }
    }
}

/// The map of a list of runs is the map of their association list.
proof fn lemma_runs_map_entries(rs: Seq<Seq<AnyComponent>>)
    ensures
        runs_map(rs) == assoc_map(run_entries(rs)),
        assoc_keys(run_entries(rs)) == run_keys(rs),
    decreases rs.len(),
{
    assert(assoc_keys(run_entries(rs)) =~= run_keys(rs));
    if rs.len() > 0 {
        lemma_runs_map_entries(rs.drop_last());
        assert(run_entries(rs).drop_last() =~= run_entries(rs.drop_last()));
    }
}

/// Two strictly increasing lists of names with the same members are equal.
pub proof fn lemma_sorted_keys_unique(a: Seq<Seq<char>>, b: Seq<Seq<char>>)
    requires
        keys_sorted(a),
        keys_sorted(b),
        forall|k: Seq<char>| a.contains(k) <==> b.contains(k),
    ensures
        a == b,
    decreases a.len() + b.len(),
{
    if a.len() == 0 {
        if b.len() > 0 {
            assert(b.contains(b[0]));
        }
        assert(a =~= b);
    } else if b.len() == 0 {
        assert(a.contains(a[0]));
    } else {
        let la = a.last();
        let lb = b.last();
        assert(a.contains(la));
        assert(b.contains(lb));
        let j = choose|j: int| 0 <= j < b.len() && b[j] == la;
        let i = choose|i: int| 0 <= i < a.len() && a[i] == lb;
        if la != lb {
            assert(j < b.len() - 1);
            assert(i < a.len() - 1);
            assert(name_less(b[j], b[b.len() - 1]));
            assert(name_less(a[i], a[a.len() - 1]));
            lemma_name_less_transitive(la, lb, la);
            lemma_name_less_irreflexive(la);
        }
        let a2 = a.drop_last();
        let b2 = b.drop_last();
        assert forall|k: Seq<char>| a2.contains(k) <==> b2.contains(k) by {
            if a2.contains(k) {
                let m = choose|m: int| 0 <= m < a2.len() && a2[m] == k;
                assert(a[m] == k);
                assert(name_less(a[m], a[a.len() - 1]));
                lemma_name_less_irreflexive(k);
                assert(b.contains(k));
                let n = choose|n: int| 0 <= n < b.len() && b[n] == k;
                assert(n != b.len() - 1);
                assert(b2[n] == k);
            }
            if b2.contains(k) {
                let m = choose|m: int| 0 <= m < b2.len() && b2[m] == k;
                assert(b[m] == k);
                assert(name_less(b[m], b[b.len() - 1]));
                lemma_name_less_irreflexive(k);
                assert(a.contains(k));
                let n = choose|n: int| 0 <= n < a.len() && a[n] == k;
                assert(n != a.len() - 1);
                assert(a2[n] == k);
            }
        }
        lemma_sorted_keys_unique(a2, b2);
        assert(a =~= a2.push(la));
        assert(b =~= b2.push(lb));
    }
}

/// Concatenating groups filed under the keys of runs, in order, gives the
/// runs back to back.
proof fn lemma_concat_run_groups(rs: Seq<Seq<AnyComponent>>, m: Map<Seq<char>, Seq<AnyComponent>>)
    requires
        forall|i: int| 0 <= i < rs.len() ==> #[trigger] m[run_keys(rs)[i]] == rs[i],
    ensures
        concat_groups(run_keys(rs), m) == flatten_runs(rs),
    decreases rs.len(),
{
    if rs.len() > 0 {
        let rest = rs.drop_last();
        assert(run_keys(rest) =~= run_keys(rs).drop_last());
        assert forall|i: int| 0 <= i < rest.len() implies #[trigger] m[run_keys(rest)[i]] == rest[i] by {
            assert(run_keys(rs)[i] == run_keys(rest)[i]);
        }
        lemma_concat_run_groups(rest, m);
        assert(m[run_keys(rs)[rs.len() - 1]] == rs[rs.len() - 1]);
    }
}

/// Components sorted by class name are given back whole when their groups
/// are concatenated in name order.
pub proof fn lemma_sorted_regroup(s: Seq<AnyComponent>, keys: Seq<Seq<char>>)
    requires
        names_ordered(s),
        keys_sorted(keys),
        forall|k: Seq<char>| #[trigger] keys.contains(k) <==> grouped_map(s).contains_key(k),
    ensures
        concat_groups(keys, grouped_map(s)) == s,
{
    let rs = runs(s);
    lemma_flatten_runs(s);
    lemma_ordered_run_keys(s);
    lemma_runs_map_entries(rs);
    let es = run_entries(rs);
    lemma_assoc_map_sorted(es);
    assert forall|k: Seq<char>| keys.contains(k) <==> run_keys(rs).contains(k) by {
        if keys.contains(k) {
            assert(grouped_map(s).contains_key(k));
        }
        if run_keys(rs).contains(k) {
            assert(assoc_keys(es).contains(k));
            assert(grouped_map(s).contains_key(k));
        }
    }
    lemma_sorted_keys_unique(keys, run_keys(rs));
    assert forall|i: int| 0 <= i < rs.len() implies #[trigger] grouped_map(s)[run_keys(rs)[i]]
        == rs[i] by {
        assert(es[i] == (run_keys(rs)[i], rs[i]));
        assert(assoc_map(es)[es[i].0] == es[i].1);
    }
    lemma_concat_run_groups(rs, grouped_map(s));
}

} // verus!
