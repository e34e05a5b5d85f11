use std::cmp::Ordering;
use vstd::prelude::*;

use crate::plugin::{Plugin, PluginSpec};
use crate::version::{law_cmp_antisymmetric, law_cmp_transitive, version_cmp, VersionSpec};

verus! {

pub open spec fn plugins_view(v: Seq<Plugin>) -> Seq<PluginSpec> {
    v.map_values(|p: Plugin| p@)
}

/// Where `x` goes in the sorted `s`: after every entry that does not order after it.
pub open spec fn insert_pos(s: Seq<PluginSpec>, x: PluginSpec) -> int
    decreases s.len(),
{
    if s.len() == 0 {
        0
    } else if version_cmp(s.last().version, x.version) == Ordering::Greater {
        insert_pos(s.drop_last(), x)
    } else {
        s.len() as int
    }
}

/// `s` sorted by version, entries that compare equal kept in their order.
pub open spec fn sort_by_version(s: Seq<PluginSpec>) -> Seq<PluginSpec>
    decreases s.len(),
{
    if s.len() == 0 {
        s
    } else {
        let r = sort_by_version(s.drop_last());
        r.insert(insert_pos(r, s.last()), s.last())
    }
}

/// The index of the first group at or after `k` whose entries carry `name`.
pub open spec fn group_index_from(g: Seq<Seq<PluginSpec>>, name: Seq<char>, k: int) -> Option<int>
    decreases g.len() - k,
{
    if k < 0 || k >= g.len() {
        None
    } else if g[k].len() > 0 && g[k][0].name == name {
        Some(k)
    } else {
        group_index_from(g, name, k + 1)
    }
}

/// The entries gathered by name, names in the order they are first seen and
/// entries of a name in the order they come.
pub open spec fn group_by_name(s: Seq<PluginSpec>) -> Seq<Seq<PluginSpec>>
    decreases s.len(),
{
    if s.len() == 0 {
        Seq::empty()
    } else {
        let g = group_by_name(s.drop_last());
        let x = s.last();
        match group_index_from(g, x.name, 0) {
            Some(k) => g.update(k, g[k].push(x)),
            None => g.push(seq![x]),
        }
    }
}

/// The groups of `s`, each sorted by version.
pub open spec fn sorted_groups(s: Seq<PluginSpec>) -> Seq<Seq<PluginSpec>> {
    group_by_name(s).map_values(|g: Seq<PluginSpec>| sort_by_version(g))
}

/// The groups with more than one entry, in order.
pub open spec fn duplicate_groups(g: Seq<Seq<PluginSpec>>) -> Seq<Seq<PluginSpec>>
    decreases g.len(),
{
    if g.len() == 0 {
        g
    } else if g.last().len() > 1 {
        duplicate_groups(g.drop_last()).push(g.last())
    } else {
        duplicate_groups(g.drop_last())
    }
}

/// The installed plugins, gathered by logical name.
pub struct PluginSet {
    groups: Vec<Vec<Plugin>>,
}

impl PluginSet {
    pub closed spec fn groups_view(&self) -> Seq<Seq<PluginSpec>> {
        self.groups@.map_values(|g: Vec<Plugin>| plugins_view(g@))
    }
}

/// Whether `a`'s version orders after `b`'s.
fn orders_after(a: &Plugin, b: &Plugin) -> (r: bool)
    ensures
        r == (version_cmp(a@.version, b@.version) == Ordering::Greater),
{
    match a.version.cmp(&b.version) {
        Ordering::Greater => true,
        _ => false,
    }
}

/// Where `x` goes in `s`, found from the end.
fn find_insert_pos(s: &Vec<Plugin>, x: &Plugin) -> (r: usize)
    ensures
        r == insert_pos(plugins_view(s@), x@),
        r <= s@.len(),
{
    let ghost v = plugins_view(s@);
    let mut j: usize = s.len();
    assert(v.subrange(0, j as int) =~= v);
    while j > 0 && orders_after(&s[j - 1], x)
        invariant
            j <= s@.len(),
            v == plugins_view(s@),
            insert_pos(v, x@) == insert_pos(v.subrange(0, j as int), x@),
        decreases j,
    {
        assert(v.subrange(0, j as int).drop_last() =~= v.subrange(0, j as int - 1));
        j = j - 1;
    }
    j
}

/// The entries of `g` sorted by version, stably.
fn sort_group(g: Vec<Plugin>) -> (r: Vec<Plugin>)
    ensures
        plugins_view(r@) == sort_by_version(plugins_view(g@)),
{
    let ghost v = plugins_view(g@);
    let mut rest = g;
    let mut r: Vec<Plugin> = Vec::new();
    let ghost mut i: int = 0;
    assert(v.subrange(0, 0) =~= Seq::<PluginSpec>::empty());
    assert(v.subrange(0, v.len() as int) =~= v);
    while rest.len() > 0
        invariant
            0 <= i <= v.len(),
            rest@.len() == v.len() - i,
            plugins_view(rest@) == v.subrange(i as int, v.len() as int),
            plugins_view(r@) == sort_by_version(v.subrange(0, i as int)),
        decreases rest@.len(),
    {
        let ghost old_rest = rest@;
        assert(plugins_view(old_rest)[0] == v[i as int]);
        let p = rest.remove(0);
        assert(p@ == v[i as int]);
        let k = find_insert_pos(&r, &p);
        let ghost before = plugins_view(r@);
        r.insert(k, p);
        proof {
            i = i + 1;
        }
        assert(v.subrange(0, i as int).drop_last() =~= v.subrange(0, i as int - 1));
        assert(plugins_view(r@) =~= before.insert(k as int, p@));
        assert(plugins_view(rest@) =~= plugins_view(old_rest).subrange(1, old_rest.len() as int));
        assert(plugins_view(rest@) =~= v.subrange(i as int, v.len() as int));
    }
    assert(v.subrange(0, i as int) =~= v);
    r
}

pub open spec fn groups_of(gs: Seq<Vec<Plugin>>) -> Seq<Seq<PluginSpec>> {
    gs.map_values(|g: Vec<Plugin>| plugins_view(g@))
}

/// The index of the group whose entries are named `name`.
fn find_group(groups: &Vec<Vec<Plugin>>, name: &String) -> (r: Option<usize>)
    ensures
        match r {
            Some(k) => group_index_from(groups_of(groups@), name@, 0) == Some(k as int) && k < groups@.len(),
            None => group_index_from(groups_of(groups@), name@, 0) is None,
        },
{
    let ghost gv = groups_of(groups@);
    let mut k: usize = 0;
    while k < groups.len()
        invariant
            k <= groups@.len(),
            gv == groups_of(groups@),
            group_index_from(gv, name@, 0) == group_index_from(gv, name@, k as int),
        decreases groups@.len() - k,
    {
        assert(gv[k as int] == plugins_view(groups@[k as int]@));
        if groups[k].len() > 0 && groups[k][0].name == *name {
            assert(gv[k as int][0] == groups@[k as int]@[0]@);
            return Some(k);
        }
        proof {
            if gv[k as int].len() > 0 {
                assert(gv[k as int][0] == groups@[k as int]@[0]@);
            }
        }
        k = k + 1;
    }
    None
}

impl PluginSet {
    /// Gathers the entries by logical name, names in the order first seen, and
    /// sorts each group by version, stably.
    pub fn new(plugins: Vec<Plugin>) -> (r: PluginSet)
        ensures
            r.groups_view() == sorted_groups(plugins_view(plugins@)),
    {
        let ghost v = plugins_view(plugins@);
        let mut rest = plugins;
        let mut groups: Vec<Vec<Plugin>> = Vec::new();
        let ghost mut i: int = 0;
        assert(v.subrange(0, 0) =~= Seq::<PluginSpec>::empty());
        assert(v.subrange(0, v.len() as int) =~= v);
        assert(groups_of(groups@) =~= Seq::<Seq<PluginSpec>>::empty());
        while rest.len() > 0
            invariant
                0 <= i <= v.len(),
                rest@.len() == v.len() - i,
                plugins_view(rest@) == v.subrange(i, v.len() as int),
                groups_of(groups@) == group_by_name(v.subrange(0, i)),
            decreases rest@.len(),
        {
            let ghost old_rest = rest@;
            let ghost before = groups_of(groups@);
            assert(plugins_view(old_rest)[0] == v[i]);
            let p = rest.remove(0);
            assert(v.subrange(0, i + 1).drop_last() =~= v.subrange(0, i));
            assert(v.subrange(0, i + 1).last() == p@);
            match find_group(&groups, &p.name) {
                Some(k) => {
                    let mut g = groups.remove(k);
                    let ghost gk = g@;
                    g.push(p);
                    groups.insert(k, g);
                    assert(plugins_view(gk.push(p)) =~= plugins_view(gk).push(p@));
                    assert(groups_of(groups@) =~= before.update(k as int, before[k as int].push(p@)));
                },
                None => {
                    let mut g: Vec<Plugin> = Vec::new();
                    g.push(p);
                    assert(plugins_view(g@) =~= seq![p@]);
                    groups.push(g);
                    assert(groups_of(groups@) =~= before.push(seq![p@]));
                },
            }
            proof {
                i = i + 1;
            }
            assert(plugins_view(rest@) =~= plugins_view(old_rest).subrange(1, old_rest.len() as int));
            assert(plugins_view(rest@) =~= v.subrange(i, v.len() as int));
        }
        assert(v.subrange(0, i) =~= v);
        let ghost unsorted = groups_of(groups@);
        let mut sorted: Vec<Vec<Plugin>> = Vec::new();
        let ghost mut j: int = 0;
        assert(groups_of(groups@).subrange(0, 0) =~= Seq::<Seq<PluginSpec>>::empty());
        assert(unsorted.subrange(0, unsorted.len() as int) =~= unsorted);
        while groups.len() > 0
            invariant
                0 <= j <= unsorted.len(),
                groups@.len() == unsorted.len() - j,
                groups_of(groups@) == unsorted.subrange(j, unsorted.len() as int),
                groups_of(sorted@) == unsorted.subrange(0, j).map_values(|g: Seq<PluginSpec>| sort_by_version(g)),
            decreases groups@.len(),
        {
            let ghost old_groups = groups@;
            let ghost before = groups_of(sorted@);
            assert(groups_of(old_groups)[0] == unsorted[j]);
            let g = groups.remove(0);
            assert(plugins_view(g@) == unsorted[j]);
            let sg = sort_group(g);
            sorted.push(sg);
            assert(groups_of(sorted@) =~= before.push(sort_by_version(unsorted[j])));
            proof {
                j = j + 1;
            }
            assert(groups_of(sorted@) =~= unsorted.subrange(0, j).map_values(|g: Seq<PluginSpec>| sort_by_version(g)));
            assert(groups_of(groups@) =~= groups_of(old_groups).subrange(1, old_groups.len() as int));
            assert(groups_of(groups@) =~= unsorted.subrange(j, unsorted.len() as int));
        }
        assert(unsorted.subrange(0, j) =~= unsorted);
        let r = PluginSet { groups: sorted };
        assert(r.groups_view() =~= groups_of(sorted@));
        r
    }
}

pub open spec fn refs_view(gs: Seq<&Vec<Plugin>>) -> Seq<Seq<PluginSpec>> {
    gs.map_values(|g: &Vec<Plugin>| plugins_view(g@))
}

pub open spec fn plugin_refs_view(ps: Seq<&Plugin>) -> Seq<PluginSpec> {
    ps.map_values(|p: &Plugin| p@)
}

/// The entries to move away: of each group all but its last, group after group.
pub open spec fn discarded_entries(gs: Seq<Seq<PluginSpec>>) -> Seq<PluginSpec>
    decreases gs.len(),
{
    if gs.len() == 0 {
        Seq::empty()
    } else {
        discarded_entries(gs.drop_last()) + all_but_last(gs.last())
    }
}

/// A group without its last entry (nothing, when it is empty).
pub open spec fn all_but_last(g: Seq<PluginSpec>) -> Seq<PluginSpec> {
    if g.len() == 0 {
        g
    } else {
        g.drop_last()
    }
}

impl PluginSet {
    /// The groups with more than one entry, in the order of the groups.
    pub fn find_duplicates(&self) -> (r: Vec<&Vec<Plugin>>)
        ensures
            refs_view(r@) == duplicate_groups(self.groups_view()),
    {
        let ghost gv = self.groups_view();
        let mut r: Vec<&Vec<Plugin>> = Vec::new();
        let mut k: usize = 0;
        assert(gv.subrange(0, 0) =~= Seq::<Seq<PluginSpec>>::empty());
        while k < self.groups.len()
            invariant
                k <= self.groups@.len(),
                gv == self.groups_view(),
                gv.len() == self.groups@.len(),
                refs_view(r@) == duplicate_groups(gv.subrange(0, k as int)),
            decreases self.groups@.len() - k,
        {
            let g = &self.groups[k];
            assert(gv[k as int] == plugins_view(g@));
            assert(gv.subrange(0, k as int + 1).drop_last() =~= gv.subrange(0, k as int));
            if g.len() > 1 {
                let ghost before = refs_view(r@);
                r.push(g);
                assert(refs_view(r@) =~= before.push(plugins_view(g@)));
            }
            k = k + 1;
        }
        assert(gv.subrange(0, k as int) =~= gv);
        r
    }

    /// The entry of a group that stays: its last, the highest version.
    pub fn kept(group: &Vec<Plugin>) -> (r: &Plugin)
        requires
            group@.len() > 0,
        ensures
            r@ == plugins_view(group@).last(),
    {
        &group[group.len() - 1]
    }

    /// The entries to move away, in the order to move them: of each group every
    /// entry but the last.
    pub fn discarded<'a>(duplicates: &Vec<&'a Vec<Plugin>>) -> (r: Vec<&'a Plugin>)
        ensures
            plugin_refs_view(r@) == discarded_entries(refs_view(duplicates@)),
    {
        let ghost dv = refs_view(duplicates@);
        let mut r: Vec<&'a Plugin> = Vec::new();
        let mut k: usize = 0;
        assert(dv.subrange(0, 0) =~= Seq::<Seq<PluginSpec>>::empty());
        while k < duplicates.len()
            invariant
                k <= duplicates@.len(),
                dv == refs_view(duplicates@),
                plugin_refs_view(r@) == discarded_entries(dv.subrange(0, k as int)),
            decreases duplicates@.len() - k,
        {
            let g: &'a Vec<Plugin> = duplicates[k];
            let ghost gv = plugins_view(g@);
            assert(dv[k as int] == gv);
            let ghost start = plugin_refs_view(r@);
            let mut i: usize = 0;
            while g.len() > 0 && i < g.len() - 1
                invariant
                    g@.len() == 0 ==> i == 0,
                    g@.len() > 0 ==> i < g@.len(),
                    gv == plugins_view(g@),
                    plugin_refs_view(r@) == start + gv.subrange(0, i as int),
                decreases g@.len() - i,
            {
                let ghost before = plugin_refs_view(r@);
                r.push(&g[i]);
                assert(plugin_refs_view(r@) =~= before.push(gv[i as int]));
                i = i + 1;
                assert(plugin_refs_view(r@) =~= start + gv.subrange(0, i as int));
            }
            assert(gv.subrange(0, i as int) =~= all_but_last(gv));
            assert(dv.subrange(0, k as int + 1).drop_last() =~= dv.subrange(0, k as int));
            k = k + 1;
        }
        assert(dv.subrange(0, k as int) =~= dv);
        r
    }
}

proof fn lemma_duplicate_groups_empty(g: Seq<Seq<PluginSpec>>)
    ensures
        (duplicate_groups(g).len() == 0) == (forall|k: int| 0 <= k < g.len() ==> #[trigger] g[k].len() <= 1),
    decreases g.len(),
{
    if g.len() > 0 {
        lemma_duplicate_groups_empty(g.drop_last());
        if forall|k: int| 0 <= k < g.len() ==> #[trigger] g[k].len() <= 1 {
            assert forall|k: int| 0 <= k < g.drop_last().len() implies #[trigger] g.drop_last()[k].len() <= 1 by {
                assert(g.drop_last()[k] == g[k]);
            }
        } else {
            let k = choose|k: int| 0 <= k < g.len() && !(#[trigger] g[k].len() <= 1);
            if k < g.len() - 1 {
                assert(g.drop_last()[k] == g[k]);
            }
        }
    }
}

/// The duplicates are empty exactly when no name has more than one entry.
pub proof fn law_no_duplicates(set: PluginSet)
    ensures
        (duplicate_groups(set.groups_view()).len() == 0) == (forall|k: int|
            0 <= k < set.groups_view().len() ==> #[trigger] set.groups_view()[k].len() <= 1),
{
    lemma_duplicate_groups_empty(set.groups_view());
}

/// No entry orders after one that follows it.
pub open spec fn ascending(s: Seq<PluginSpec>) -> bool {
    forall|i: int, j: int|
        0 <= i < j < s.len() ==> version_cmp(#[trigger] s[i].version, #[trigger] s[j].version)
            != Ordering::Greater
}

proof fn lemma_insert_pos(r: Seq<PluginSpec>, x: PluginSpec)
    requires
        ascending(r),
    ensures
        0 <= insert_pos(r, x) <= r.len(),
        forall|i: int| 0 <= i < insert_pos(r, x) ==> version_cmp(#[trigger] r[i].version, x.version) != Ordering::Greater,
        forall|i: int| insert_pos(r, x) <= i < r.len() ==> version_cmp(#[trigger] r[i].version, x.version) == Ordering::Greater,
    decreases r.len(),
{
    if r.len() > 0 {
        let d = r.drop_last();
        if version_cmp(r.last().version, x.version) == Ordering::Greater {
            assert(ascending(d)) by {
                assert forall|i: int, j: int| 0 <= i < j < d.len() implies version_cmp(#[trigger] d[i].version, #[trigger] d[j].version) != Ordering::Greater by {
                    assert(d[i] == r[i] && d[j] == r[j]);
                }
            }
            lemma_insert_pos(d, x);
            assert forall|i: int| 0 <= i < insert_pos(r, x) implies version_cmp(#[trigger] r[i].version, x.version) != Ordering::Greater by {
                assert(d[i] == r[i]);
            }
            assert forall|i: int| insert_pos(r, x) <= i < r.len() implies version_cmp(#[trigger] r[i].version, x.version) == Ordering::Greater by {
                if i < r.len() - 1 {
                    assert(d[i] == r[i]);
                }
            }
        } else {
            assert forall|i: int| 0 <= i < insert_pos(r, x) implies version_cmp(#[trigger] r[i].version, x.version) != Ordering::Greater by {
                if i < r.len() - 1 {
                    assert(version_cmp(r[i].version, r[r.len() - 1].version) != Ordering::Greater);
                    law_cmp_transitive(r[i].version, r.last().version, x.version);
                }
            }
        }
    }
}

/// The stable sort keeps the entries and puts them in ascending order, so the
/// last entry of a group, the one kept, orders at or after every other.
pub proof fn law_sort_ascends(s: Seq<PluginSpec>)
    ensures
        sort_by_version(s).to_multiset() == s.to_multiset(),
        ascending(sort_by_version(s)),
    decreases s.len(),
{
    broadcast use vstd::seq_lib::to_multiset_build, vstd::seq_lib::to_multiset_insert;

    if s.len() == 0 {
    } else {
        let d = s.drop_last();
        let x = s.last();
        law_sort_ascends(d);
        let r = sort_by_version(d);
        lemma_insert_pos(r, x);
        let k = insert_pos(r, x);
        let t = r.insert(k, x);
        assert(s =~= d.push(x));
        assert(t.to_multiset() == r.to_multiset().insert(x));
        assert forall|i: int, j: int| 0 <= i < j < t.len() implies version_cmp(#[trigger] t[i].version, #[trigger] t[j].version) != Ordering::Greater by {
            if j < k {
                assert(t[i] == r[i] && t[j] == r[j]);
            } else if j == k {
                assert(t[i] == r[i] && t[j] == x);
            } else if i == k {
                assert(t[i] == x && t[j] == r[j - 1]);
                law_cmp_antisymmetric(x.version, r[j - 1].version);
            } else if i < k {
                assert(t[i] == r[i] && t[j] == r[j - 1]);
            } else {
                assert(t[i] == r[i - 1] && t[j] == r[j - 1]);
            }
        }
    }
}

/// Every group holds an entry, all its entries carry the name of its first, and
/// no two groups share a name.
pub open spec fn named_groups(g: Seq<Seq<PluginSpec>>) -> bool {
    &&& forall|k: int| 0 <= k < g.len() ==> (#[trigger] g[k]).len() > 0
    &&& forall|k: int, i: int| 0 <= k < g.len() && 0 <= i < g[k].len() ==> (#[trigger] g[k][i]).name == g[k][0].name
    &&& forall|k1: int, k2: int| 0 <= k1 < g.len() && 0 <= k2 < g.len() && k1 != k2 ==> (#[trigger] g[k1])[0].name != (#[trigger] g[k2])[0].name
}

proof fn lemma_group_index(g: Seq<Seq<PluginSpec>>, name: Seq<char>, k: int)
    requires
        0 <= k,
    ensures
        match group_index_from(g, name, k) {
            Some(m) => k <= m < g.len() && g[m].len() > 0 && g[m][0].name == name,
            None => forall|j: int| k <= j < g.len() ==> !((#[trigger] g[j]).len() > 0 && g[j][0].name == name),
        },
    decreases g.len() - k,
{
    if k < g.len() && !(g[k].len() > 0 && g[k][0].name == name) {
        lemma_group_index(g, name, k + 1);
    }
}

proof fn lemma_group_by_name(s: Seq<PluginSpec>)
    ensures
        named_groups(group_by_name(s)),
    decreases s.len(),
{
    if s.len() > 0 {
        let g = group_by_name(s.drop_last());
        let x = s.last();
        lemma_group_by_name(s.drop_last());
        lemma_group_index(g, x.name, 0);
        match group_index_from(g, x.name, 0) {
            Some(m) => {
                let h = g.update(m, g[m].push(x));
                assert(h[m][0] == g[m][0]);
                assert forall|k: int, i: int| 0 <= k < h.len() && 0 <= i < h[k].len() implies (#[trigger] h[k][i]).name == h[k][0].name by {
                    if k != m {
                        assert(h[k] == g[k]);
                    } else if i < g[m].len() {
                        assert(h[k][i] == g[m][i]);
                    }
                }
                assert forall|k1: int, k2: int| 0 <= k1 < h.len() && 0 <= k2 < h.len() && k1 != k2 implies (#[trigger] h[k1])[0].name != (#[trigger] h[k2])[0].name by {
                    assert(h[k1][0] == g[k1][0] && h[k2][0] == g[k2][0]);
                }
            },
            None => {
                let h = g.push(seq![x]);
                assert forall|k: int, i: int| 0 <= k < h.len() && 0 <= i < h[k].len() implies (#[trigger] h[k][i]).name == h[k][0].name by {
                    if k < g.len() {
                        assert(h[k] == g[k]);
                    }
                }
                assert forall|k1: int, k2: int| 0 <= k1 < h.len() && 0 <= k2 < h.len() && k1 != k2 implies (#[trigger] h[k1])[0].name != (#[trigger] h[k2])[0].name by {
                    if k1 < g.len() {
                        assert(h[k1] == g[k1]);
                    }
                    if k2 < g.len() {
                        assert(h[k2] == g[k2]);
                    }
                }
            },
        }
    }
}

/// The groups that `new` builds are named groups: each holds an entry, its
/// entries share one name, and each name has one group.
pub proof fn law_groups_are_named(s: Seq<PluginSpec>)
    ensures
        named_groups(sorted_groups(s)),
{
    broadcast use vstd::seq_lib::to_multiset_contains, vstd::seq_lib::to_multiset_len;

    let g = group_by_name(s);
    let h = sorted_groups(s);
    lemma_group_by_name(s);
    assert forall|k: int| 0 <= k < h.len() implies (#[trigger] h[k]).len() > 0 && (forall|i: int|
        0 <= i < h[k].len() ==> (#[trigger] h[k][i]).name == g[k][0].name) by {
        law_sort_ascends(g[k]);
        assert(h[k] == sort_by_version(g[k]));
        assert(h[k].to_multiset().len() == g[k].to_multiset().len());
        assert forall|i: int| 0 <= i < h[k].len() implies (#[trigger] h[k][i]).name == g[k][0].name by {
            assert(h[k].to_multiset().contains(h[k][i]));
            assert(g[k].contains(h[k][i]));
        }
    }
    assert forall|k1: int, k2: int| 0 <= k1 < h.len() && 0 <= k2 < h.len() && k1 != k2 implies (#[trigger] h[k1])[0].name != (#[trigger] h[k2])[0].name by {
        assert(h[k1][0].name == g[k1][0].name);
        assert(h[k2][0].name == g[k2][0].name);
    }
}

/// An entry at `path` named `name` with version `major.0.0`, and `build`.
pub open spec fn entry_at(path: Seq<char>, name: Seq<char>, major: nat, build: Option<Seq<char>>) -> PluginSpec {
    PluginSpec { path, name, version: VersionSpec { major, minor: 0, patch: 0, build } }
}

/// `s` is `a`, `b` and `c` in some order.
pub open spec fn in_some_order(s: Seq<PluginSpec>, a: PluginSpec, b: PluginSpec, c: PluginSpec) -> bool {
    ||| s == seq![a, b, c]
    ||| s == seq![a, c, b]
    ||| s == seq![b, a, c]
    ||| s == seq![b, c, a]
    ||| s == seq![c, a, b]
    ||| s == seq![c, b, a]
}

proof fn lemma_one_name_group(s: Seq<PluginSpec>)
    requires
        s.len() == 3,
        s[0].name == s[1].name && s[1].name == s[2].name,
    ensures
        group_by_name(s) == seq![s],
{
    reveal_with_fuel(group_index_from, 2);
    let s1 = s.subrange(0, 1);
    let s2 = s.subrange(0, 2);
    let e = Seq::<PluginSpec>::empty();
    assert(s1.drop_last() =~= e);
    assert(group_by_name(e) == Seq::<Seq<PluginSpec>>::empty());
    assert(s1.last() == s[0]);
    let g1 = group_by_name(s1);
    assert(g1 == Seq::<Seq<PluginSpec>>::empty().push(seq![s[0]]));
    assert(g1.len() == 1 && g1[0] == seq![s[0]]);
    assert(s2.drop_last() =~= s1);
    assert(s2.last() == s[1]);
    assert(group_index_from(g1, s[1].name, 0) == Some(0int));
    let g2 = group_by_name(s2);
    assert(g2 == g1.update(0, g1[0].push(s[1])));
    assert(g2.len() == 1 && g2[0] =~= seq![s[0], s[1]]);
    assert(s.drop_last() =~= s2);
    assert(s.last() == s[2]);
    assert(group_index_from(g2, s[2].name, 0) == Some(0int));
    let g3 = group_by_name(s);
    assert(g3 == g2.update(0, g2[0].push(s[2])));
    assert(g3[0] =~= seq![s[0], s[1], s[2]]);
    assert(g3 =~= seq![seq![s[0], s[1], s[2]]]);
    assert(seq![s[0], s[1], s[2]] =~= s);
}

proof fn lemma_sort_three(s: Seq<PluginSpec>, a: PluginSpec, b: PluginSpec, c: PluginSpec)
    requires
        in_some_order(s, a, b, c),
        version_cmp(a.version, b.version) == Ordering::Less,
        version_cmp(b.version, c.version) == Ordering::Less,
        version_cmp(a.version, c.version) == Ordering::Less,
    ensures
        sort_by_version(s) == seq![a, b, c],
{
    law_cmp_antisymmetric(a.version, b.version);
    law_cmp_antisymmetric(b.version, c.version);
    law_cmp_antisymmetric(a.version, c.version);
    reveal_with_fuel(insert_pos, 3);
    let s1 = s.subrange(0, 1);
    let s2 = s.subrange(0, 2);
    assert(s1.drop_last() =~= Seq::<PluginSpec>::empty());
    assert(s2.drop_last() =~= s1);
    assert(s.drop_last() =~= s2);
    assert(sort_by_version(Seq::<PluginSpec>::empty()) == Seq::<PluginSpec>::empty());
    assert(s1.last() == s[0] && s2.last() == s[1] && s.last() == s[2]);
    assert(sort_by_version(s1) == Seq::<PluginSpec>::empty().insert(0, s[0]));
    assert(sort_by_version(s1) =~= seq![s[0]]);
    let r2 = sort_by_version(s2);
    let ins = |r: Seq<PluginSpec>, x: PluginSpec| r.insert(insert_pos(r, x), x);
    if s == seq![a, b, c] {
        assert(r2 =~= seq![a, b]);
        assert(ins(r2, c) =~= seq![a, b, c]);
    } else if s == seq![a, c, b] {
        assert(r2 =~= seq![a, c]);
        assert(ins(r2, b) =~= seq![a, b, c]);
    } else if s == seq![b, a, c] {
        assert(r2 =~= seq![a, b]);
        assert(ins(r2, c) =~= seq![a, b, c]);
    } else if s == seq![b, c, a] {
        assert(r2 =~= seq![b, c]);
        assert(ins(r2, a) =~= seq![a, b, c]);
    } else if s == seq![c, a, b] {
        assert(r2 =~= seq![a, c]);
        assert(ins(r2, b) =~= seq![a, b, c]);
    } else {
        assert(r2 =~= seq![b, c]);
        assert(ins(r2, a) =~= seq![a, b, c]);
    }
}

/// Three entries of one name with versions `1.0.0`, `1.0.0.b` and `2.0.0`,
/// listed in any order, make one duplicate group in that ascending order: the
/// `2.0.0` entry is kept and the other two are discarded.
pub proof fn law_three_versions_one_group(name: Seq<char>, pa: Seq<char>, pb: Seq<char>, pc: Seq<char>, s: Seq<PluginSpec>)
    requires
        in_some_order(s, entry_at(pa, name, 1, None), entry_at(pb, name, 1, Some(seq!['b'])), entry_at(pc, name, 2, None)),
    ensures
        duplicate_groups(sorted_groups(s)) == seq![
            seq![entry_at(pa, name, 1, None), entry_at(pb, name, 1, Some(seq!['b'])), entry_at(pc, name, 2, None)],
        ],
        discarded_entries(duplicate_groups(sorted_groups(s))) == seq![entry_at(pa, name, 1, None), entry_at(pb, name, 1, Some(seq!['b']))],
{
    let a = entry_at(pa, name, 1, None);
    let b = entry_at(pb, name, 1, Some(seq!['b']));
    let c = entry_at(pc, name, 2, None);
    let t = seq![a, b, c];
    lemma_one_name_group(s);
    lemma_sort_three(s, a, b, c);
    assert(sorted_groups(s) =~= seq![t]);
    let none = Seq::<Seq<PluginSpec>>::empty();
    assert(seq![t].drop_last() =~= none);
    assert(seq![t].last() == t);
    assert(duplicate_groups(none) == none);
    assert(discarded_entries(none) == Seq::<PluginSpec>::empty());
    assert(duplicate_groups(seq![t]) == none.push(t));
    assert(duplicate_groups(seq![t]) =~= seq![t]);
    assert(t.drop_last() =~= seq![a, b]);
    assert(discarded_entries(seq![t]) == Seq::<PluginSpec>::empty() + all_but_last(t));
    assert(discarded_entries(seq![t]) =~= seq![a, b]);
}

} // verus!
