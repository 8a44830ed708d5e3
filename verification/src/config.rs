//! The catalogue itself: three namespaces (aliases, links, groups), the
//! invariant warnings over them, and the two cascading renames that keep
//! cross-references consistent.

use vstd::prelude::*;
use crate::maps::{
    NameMap, ListMap, map_has_key, map_value_of, map_insert, map_remove, map_wf,
    retarget_spec, rename_in_lists_spec, lemma_find_key,
};
use crate::error::{
    Error, dangling_alias_msg, dangling_entry_msg, dangling_alias_warning,
    dangling_entry_warning,
};

verus! {

/// The mathematical shape of a catalogue: the three maps as sequences of
/// entries in storage order.
#[verifier::ext_equal]
pub struct DocModel {
    pub aliases: Seq<(Seq<char>, Seq<char>)>,
    pub links: Seq<(Seq<char>, Seq<char>)>,
    pub groups: Seq<(Seq<char>, Seq<Seq<char>>)>,
}

/// All three maps have pairwise-distinct keys.
pub open spec fn model_wf(m: DocModel) -> bool {
    map_wf(m.aliases) && map_wf(m.links) && map_wf(m.groups)
}

/// A catalogue of named links: aliases point at links by name, links hold
/// URIs, groups hold ordered lists of alias or link names.
#[derive(Debug)]
pub struct Config {
    pub aliases: NameMap,
    pub links: NameMap,
    pub groups: ListMap,
}

impl View for Config {
    type V = DocModel;

    open spec fn view(&self) -> DocModel {
        DocModel { aliases: self.aliases@, links: self.links@, groups: self.groups@ }
    }
}

impl Default for Config {
    /// The empty catalogue.
    fn default() -> (r: Config)
        ensures
            r@.aliases.len() == 0,
            r@.links.len() == 0,
            r@.groups.len() == 0,
            r.wf(),
    {
        Config { aliases: NameMap::new(), links: NameMap::new(), groups: ListMap::new() }
    }
}

/// Warnings for aliases whose target is not a link key, in storage order.
pub open spec fn alias_warnings(
    aliases: Seq<(Seq<char>, Seq<char>)>,
    links: Seq<(Seq<char>, Seq<char>)>,
) -> Seq<Seq<char>>
    decreases aliases.len(),
{
    if aliases.len() == 0 {
        Seq::empty()
    } else {
        let head = if !map_has_key(links, aliases[0].1) {
            seq![dangling_alias_msg(aliases[0].0, aliases[0].1)]
        } else {
            Seq::empty()
        };
        head + alias_warnings(aliases.drop_first(), links)
    }
}

/// Warnings for members of one group that are neither alias nor link keys.
pub open spec fn entry_warnings(
    group: Seq<char>,
    members: Seq<Seq<char>>,
    aliases: Seq<(Seq<char>, Seq<char>)>,
    links: Seq<(Seq<char>, Seq<char>)>,
) -> Seq<Seq<char>>
    decreases members.len(),
{
    if members.len() == 0 {
        Seq::empty()
    } else {
        let head = if !map_has_key(aliases, members[0]) && !map_has_key(links, members[0]) {
            seq![dangling_entry_msg(group, members[0])]
        } else {
            Seq::empty()
        };
        head + entry_warnings(group, members.drop_first(), aliases, links)
    }
}

/// Warnings over all groups, in storage order.
pub open spec fn group_warnings(
    groups: Seq<(Seq<char>, Seq<Seq<char>>)>,
    aliases: Seq<(Seq<char>, Seq<char>)>,
    links: Seq<(Seq<char>, Seq<char>)>,
) -> Seq<Seq<char>>
    decreases groups.len(),
{
    if groups.len() == 0 {
        Seq::empty()
    } else {
        entry_warnings(groups[0].0, groups[0].1, aliases, links) + group_warnings(
            groups.drop_first(),
            aliases,
            links,
        )
    }
}

/// Every warning `validate` reports, in order.
pub open spec fn validate_spec(m: DocModel) -> Seq<Seq<char>> {
    alias_warnings(m.aliases, m.links) + group_warnings(m.groups, m.aliases, m.links)
}

/// The two referential invariants hold: every alias target is a link key,
/// and every group member is an alias or link key.
pub open spec fn invariants_hold(m: DocModel) -> bool {
    &&& forall|i: int| 0 <= i < m.aliases.len() ==> map_has_key(m.links, m.aliases[i].1)
    &&& forall|i: int, j: int|
        0 <= i < m.groups.len() && 0 <= j < m.groups[i].1.len() ==> map_has_key(
            m.aliases,
            m.groups[i].1[j],
        ) || map_has_key(m.links, m.groups[i].1[j])
}

/// On success the link's URI moved from `old_name` to `new_name` and every
/// alias that targeted `old_name` now targets `new_name`; groups are
/// untouched.
pub open spec fn rename_link_ok(
    pre: DocModel,
    post: DocModel,
    old_name: Seq<char>,
    new_name: Seq<char>,
) -> bool {
    &&& post.links == map_insert(
        map_remove(pre.links, old_name),
        new_name,
        map_value_of(pre.links, old_name),
    )
    &&& post.aliases == retarget_spec(pre.aliases, old_name, new_name)
    &&& post.groups == pre.groups
}

/// On success the alias's target moved from `old_name` to `new_name` and
/// every occurrence of `old_name` in every group's member list became
/// `new_name`, order and duplicates preserved; links are untouched.
pub open spec fn rename_alias_ok(
    pre: DocModel,
    post: DocModel,
    old_name: Seq<char>,
    new_name: Seq<char>,
) -> bool {
    &&& post.aliases == map_insert(
        map_remove(pre.aliases, old_name),
        new_name,
        map_value_of(pre.aliases, old_name),
    )
    &&& post.groups == rename_in_lists_spec(pre.groups, old_name, new_name)
    &&& post.links == pre.links
}

impl Config {
    pub open spec fn wf(&self) -> bool {
        self.aliases.wf() && self.links.wf() && self.groups.wf()
    }

    /// Scan the catalogue for dangling references and return a warning line
    /// for each, without failing: loading tolerates a broken catalogue.
    #[verifier::loop_isolation(false)]
    pub fn validate(&self) -> (r: Vec<String>)
        ensures
            r.deep_view() == validate_spec(self@),
    {
        let mut warnings: Vec<String> = Vec::new();
        let alias_items = self.aliases.items();
        let n = alias_items.len();
        proof {
            assert(warnings.deep_view() =~= Seq::<Seq<char>>::empty());
            assert(self.aliases@.subrange(0, n as int) =~= self.aliases@);
            assert(Seq::<Seq<char>>::empty() + alias_warnings(self.aliases@, self.links@)
                =~= alias_warnings(self.aliases@, self.links@));
        }
        let mut i: usize = 0;
        while i < n
            invariant
                0 <= i <= n,
                warnings.deep_view() + alias_warnings(
                    self.aliases@.subrange(i as int, n as int),
                    self.links@,
                ) == alias_warnings(self.aliases@, self.links@),
            decreases n - i,
        {
            let ghost pre = warnings.deep_view();
            let ghost rest = self.aliases@.subrange(i as int, n as int);
            let e = &alias_items[i];
            if !self.links.contains_key(e.1.as_str()) {
                warnings.push(dangling_alias_warning(e.0.as_str(), e.1.as_str()));
                proof {
                    assert(warnings.deep_view() =~= pre.push(
                        dangling_alias_msg(self.aliases@[i as int].0, self.aliases@[i as int].1),
                    ));
                }
            }
            proof {
                assert(rest.drop_first() =~= self.aliases@.subrange(i + 1, n as int));
                assert(warnings.deep_view() + alias_warnings(
                    self.aliases@.subrange(i + 1, n as int),
                    self.links@,
                ) =~= pre + alias_warnings(rest, self.links@));
            }
            i = i + 1;
        }
        proof {
            assert(self.aliases@.subrange(n as int, n as int) =~= Seq::<
                (Seq<char>, Seq<char>),
            >::empty());
            assert(warnings.deep_view() =~= alias_warnings(self.aliases@, self.links@));
        }
        let group_items = self.groups.items();
        let gn = group_items.len();
        proof {
            assert(self.groups@.subrange(0, gn as int) =~= self.groups@);
            assert(warnings.deep_view() + group_warnings(self.groups@, self.aliases@, self.links@)
                =~= validate_spec(self@));
        }
        let mut g: usize = 0;
        while g < gn
            invariant
                0 <= g <= gn,
                warnings.deep_view() + group_warnings(
                    self.groups@.subrange(g as int, gn as int),
                    self.aliases@,
                    self.links@,
                ) == validate_spec(self@),
            decreases gn - g,
        {
            let ghost grest = self.groups@.subrange(g as int, gn as int);
            let e = &group_items[g];
            let ghost gname = self.groups@[g as int].0;
            let ghost gmembers = self.groups@[g as int].1;
            let m = e.1.len();
            proof {
                assert(grest.drop_first() =~= self.groups@.subrange(g + 1, gn as int));
                assert(grest[0].0 == gname && grest[0].1 == gmembers);
                assert(gmembers.subrange(0, m as int) =~= gmembers);
                assert(warnings.deep_view() + entry_warnings(
                    gname,
                    gmembers,
                    self.aliases@,
                    self.links@,
                ) + group_warnings(
                    self.groups@.subrange(g + 1, gn as int),
                    self.aliases@,
                    self.links@,
                ) =~= warnings.deep_view() + group_warnings(grest, self.aliases@, self.links@));
            }
            let mut j: usize = 0;
            while j < m
                invariant
                    0 <= j <= m,
                    0 <= g < gn,
                    m == gmembers.len(),
                    warnings.deep_view() + entry_warnings(
                        gname,
                        gmembers.subrange(j as int, m as int),
                        self.aliases@,
                        self.links@,
                    ) + group_warnings(
                        self.groups@.subrange(g + 1, gn as int),
                        self.aliases@,
                        self.links@,
                    ) == validate_spec(self@),
                decreases m - j,
            {
                let ghost pre = warnings.deep_view();
                let ghost mrest = gmembers.subrange(j as int, m as int);
                let entry = &e.1[j];
                if !self.aliases.contains_key(entry.as_str()) && !self.links.contains_key(
                    entry.as_str(),
                ) {
                    warnings.push(dangling_entry_warning(e.0.as_str(), entry.as_str()));
                    proof {
                        assert(warnings.deep_view() =~= pre.push(
                            dangling_entry_msg(gname, gmembers[j as int]),
                        ));
                    }
                }
                proof {
                    assert(mrest.drop_first() =~= gmembers.subrange(j + 1, m as int));
                    assert(warnings.deep_view() + entry_warnings(
                        gname,
                        gmembers.subrange(j + 1, m as int),
                        self.aliases@,
                        self.links@,
                    ) =~= pre + entry_warnings(gname, mrest, self.aliases@, self.links@));
                }
                j = j + 1;
            }
            proof {
                assert(gmembers.subrange(m as int, m as int) =~= Seq::<Seq<char>>::empty());
                assert(entry_warnings(
                    gname,
                    gmembers.subrange(m as int, m as int),
                    self.aliases@,
                    self.links@,
                ) =~= Seq::<Seq<char>>::empty());
                assert(grest.drop_first() =~= self.groups@.subrange(g + 1, gn as int));
                assert(grest[0].0 == gname && grest[0].1 == gmembers);
                assert(warnings.deep_view() + Seq::<Seq<char>>::empty() =~= warnings.deep_view());
            }
            g = g + 1;
        }
        proof {
            assert(self.groups@.subrange(gn as int, gn as int) =~= Seq::<
                (Seq<char>, Seq<Seq<char>>),
            >::empty());
            assert(warnings.deep_view() + Seq::<Seq<char>>::empty() =~= warnings.deep_view());
        }
        warnings
    }

    /// Rename a link key and cascade to all aliases that target it.  Fails
    /// with `NotFound`, leaving the catalogue unchanged, iff `old_name` is
    /// not a link key.
    pub fn rename_link(&mut self, old_name: &str, new_name: &str) -> (r: Result<(), Error>)
        requires
            old(self).wf(),
        ensures
            final(self).wf(),
            map_has_key(old(self)@.links, old_name@) ==> r is Ok && rename_link_ok(
                old(self)@,
                final(self)@,
                old_name@,
                new_name@,
            ),
            !map_has_key(old(self)@.links, old_name@) ==> final(self)@ == old(self)@ && match r {
                Ok(_) => false,
                Err(e) => e matches Error::NotFound { name } && name@ == old_name@,
            },
    {
        match self.links.remove(old_name) {
            Some(uri) => {
                self.links.insert(new_name.to_owned(), uri);
                self.aliases.retarget(old_name, new_name);
                Ok(())
            },
            None => {
                proof {
                    lemma_find_key(old(self)@.links, old_name@);
                    assert(self@ =~= old(self)@);
                }
                Err(Error::NotFound { name: old_name.to_owned() })
            },
        }
    }

    /// Rename an alias key and cascade to all groups that reference it.
    /// Fails with `NotFound`, leaving the catalogue unchanged, iff
    /// `old_name` is not an alias key.
    pub fn rename_alias(&mut self, old_name: &str, new_name: &str) -> (r: Result<(), Error>)
        requires
            old(self).wf(),
        ensures
            final(self).wf(),
            map_has_key(old(self)@.aliases, old_name@) ==> r is Ok && rename_alias_ok(
                old(self)@,
                final(self)@,
                old_name@,
                new_name@,
            ),
            !map_has_key(old(self)@.aliases, old_name@) ==> final(self)@ == old(self)@ && match r {
                Ok(_) => false,
                Err(e) => e matches Error::NotFound { name } && name@ == old_name@,
            },
    {
        match self.aliases.remove(old_name) {
            Some(target) => {
                self.aliases.insert(new_name.to_owned(), target);
                self.groups.rename_entries(old_name, new_name);
                Ok(())
            },
            None => {
                proof {
                    lemma_find_key(old(self)@.aliases, old_name@);
                    assert(self@ =~= old(self)@);
                }
                Err(Error::NotFound { name: old_name.to_owned() })
            },
        }
    }
}

/// A catalogue produces no warnings exactly when both referential
/// invariants hold.
pub proof fn lemma_validate_empty(m: DocModel)
    ensures
        validate_spec(m) == Seq::<Seq<char>>::empty() <==> invariants_hold(m),
{
    lemma_alias_warnings_empty(m.aliases, m.links);
    lemma_group_warnings_empty(m.groups, m.aliases, m.links);
    if alias_warnings(m.aliases, m.links).len() == 0 && group_warnings(
        m.groups,
        m.aliases,
        m.links,
    ).len() == 0 {
        assert(validate_spec(m) =~= Seq::<Seq<char>>::empty());
    }
    if validate_spec(m) == Seq::<Seq<char>>::empty() {
        assert(alias_warnings(m.aliases, m.links).len() == 0);
        assert(group_warnings(m.groups, m.aliases, m.links).len() == 0);
    }
}

proof fn lemma_alias_warnings_empty(
    aliases: Seq<(Seq<char>, Seq<char>)>,
    links: Seq<(Seq<char>, Seq<char>)>,
)
    ensures
        alias_warnings(aliases, links).len() == 0 <==> forall|i: int|
            0 <= i < aliases.len() ==> map_has_key(links, aliases[i].1),
    decreases aliases.len(),
{
    if aliases.len() == 0 {
    } else {
        lemma_alias_warnings_empty(aliases.drop_first(), links);
        assert(forall|i: int|
            1 <= i < aliases.len() ==> aliases[i] == aliases.drop_first()[i - 1]);
    }
}

proof fn lemma_entry_warnings_empty(
    group: Seq<char>,
    members: Seq<Seq<char>>,
    aliases: Seq<(Seq<char>, Seq<char>)>,
    links: Seq<(Seq<char>, Seq<char>)>,
)
    ensures
        entry_warnings(group, members, aliases, links).len() == 0 <==> forall|j: int|
            0 <= j < members.len() ==> map_has_key(aliases, members[j]) || map_has_key(
                links,
                members[j],
            ),
    decreases members.len(),
{
    if members.len() == 0 {
    } else {
        lemma_entry_warnings_empty(group, members.drop_first(), aliases, links);
        assert(forall|j: int|
            1 <= j < members.len() ==> members[j] == members.drop_first()[j - 1]);
    }
}

proof fn lemma_group_warnings_empty(
    groups: Seq<(Seq<char>, Seq<Seq<char>>)>,
    aliases: Seq<(Seq<char>, Seq<char>)>,
    links: Seq<(Seq<char>, Seq<char>)>,
)
    ensures
        group_warnings(groups, aliases, links).len() == 0 <==> forall|i: int, j: int|
            0 <= i < groups.len() && 0 <= j < groups[i].1.len() ==> map_has_key(
                aliases,
                groups[i].1[j],
            ) || map_has_key(links, groups[i].1[j]),
    decreases groups.len(),
{
    if groups.len() == 0 {
    } else {
        lemma_entry_warnings_empty(groups[0].0, groups[0].1, aliases, links);
        lemma_group_warnings_empty(groups.drop_first(), aliases, links);
        assert(forall|i: int|
            1 <= i < groups.len() ==> groups[i] == groups.drop_first()[i - 1]);
    }
}

} // verus!
