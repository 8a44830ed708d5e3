//! The view-side logic of the HTTP surface: HTML escaping, the lenient
//! URL lookup the pages link with, the sort-order query parameter, and
//! the sorted entry lists the content table is rendered from.  The markup
//! itself lives with the embedding program.

use vstd::prelude::*;
use vstd::string::{StrSliceExecFns, StringExecFns};
use vstd::multiset::Multiset;
use crate::config::Config;
use crate::maps::{NameMap, ListMap};
use crate::resolve::{resolve_ok, resolved_uri};
use crate::text::str_eq;

verus! {

// ------------------------------------------------------------------
// HTML escaping
// ------------------------------------------------------------------

/// What one character renders as in HTML text.
pub open spec fn escape_char(c: char) -> Seq<char> {
    if c == '&' {
        "&amp;"@
    } else if c == '<' {
        "&lt;"@
    } else if c == '>' {
        "&gt;"@
    } else if c == '"' {
        "&quot;"@
    } else {
        seq![c]
    }
}

/// The HTML-escaped form of a string.
pub open spec fn escape_spec(s: Seq<char>) -> Seq<char>
    decreases s.len(),
{
    if s.len() == 0 {
        Seq::empty()
    } else {
        escape_char(s[0]) + escape_spec(s.drop_first())
    }
}

/// Escape `&`, `<`, `>` and `"` for embedding in HTML.
#[verifier::loop_isolation(false)]
pub fn escape(s: &str) -> (r: String)
    ensures
        r@ == escape_spec(s@),
{
    let mut out = String::new();
    let n = s.unicode_len();
    proof {
        assert(out@ =~= Seq::<char>::empty());
        assert(s@.subrange(0, n as int) =~= s@);
        assert(Seq::<char>::empty() + escape_spec(s@) =~= escape_spec(s@));
    }
    let mut i: usize = 0;
    while i < n
        invariant
            0 <= i <= n,
            out@ + escape_spec(s@.subrange(i as int, n as int)) == escape_spec(s@),
        decreases n - i,
    {
        let ghost pre = out@;
        let ghost rest = s@.subrange(i as int, n as int);
        let c = s.get_char(i);
        if c == '&' {
            out.append("&amp;");
        } else if c == '<' {
            out.append("&lt;");
        } else if c == '>' {
            out.append("&gt;");
        } else if c == '"' {
            out.append("&quot;");
        } else {
            out.append(s.substring_char(i, i + 1));
            proof {
                assert(s@.subrange(i as int, i + 1) =~= seq![s@[i as int]]);
            }
        }
        proof {
            assert(rest[0] == s@[i as int]);
            assert(rest.drop_first() =~= s@.subrange(i + 1, n as int));
            assert(out@ =~= pre + escape_char(s@[i as int]));
            assert(out@ + escape_spec(s@.subrange(i + 1, n as int)) =~= pre + escape_spec(
                rest,
            ));
        }
        i = i + 1;
    }
    proof {
        assert(s@.subrange(n as int, n as int) =~= Seq::<char>::empty());
        assert(out@ + Seq::<char>::empty() =~= out@);
    }
    out
}

// ------------------------------------------------------------------
// Lenient resolution for rendering
// ------------------------------------------------------------------

/// Resolve a name to a URL for display: aliases first, then direct links;
/// a dangling alias or an unknown name simply renders without a link.
pub fn resolve_url(name: &str, config: &Config) -> (r: Option<String>)
    ensures
        match r {
            Some(u) => resolve_ok(config@, name@) && u@ == resolved_uri(config@, name@),
            None => !resolve_ok(config@, name@),
        },
{
    match config.aliases.get(name) {
        Some(target) => match config.links.get(target.as_str()) {
            Some(u) => Some(u.clone()),
            None => None,
        },
        None => match config.links.get(name) {
            Some(u) => Some(u.clone()),
            None => None,
        },
    }
}

// ------------------------------------------------------------------
// Sort order
// ------------------------------------------------------------------

/// The column the content table is sorted by.
#[derive(Clone, Copy, Debug, PartialEq, Eq, Structural)]
pub enum SortField {
    Name,
    Url,
}

/// Read the `sort` query parameter; anything but `url` sorts by name.
pub fn parse_sort(q: Option<&str>) -> (r: SortField)
    ensures
        r == (match q {
            Some(s) => if s@ == "url"@ {
                SortField::Url
            } else {
                SortField::Name
            },
            None => SortField::Name,
        }),
{
    match q {
        Some(s) => if str_eq(s, "url") {
            SortField::Url
        } else {
            SortField::Name
        },
        None => SortField::Name,
    }
}

// ------------------------------------------------------------------
// Lexicographic order on strings
// ------------------------------------------------------------------

/// Lexicographic order by Unicode scalar value.
pub open spec fn lex_le(a: Seq<char>, b: Seq<char>) -> bool
    decreases a.len(),
{
    if a.len() == 0 {
        true
    } else if b.len() == 0 {
        false
    } else if (a[0] as u32) < (b[0] as u32) {
        true
    } else if (a[0] as u32) > (b[0] as u32) {
        false
    } else {
        lex_le(a.drop_first(), b.drop_first())
    }
}

/// Compare two strings lexicographically.
#[verifier::loop_isolation(false)]
pub fn str_le(a: &str, b: &str) -> (r: bool)
    ensures
        r == lex_le(a@, b@),
{
    let na = a.unicode_len();
    let nb = b.unicode_len();
    proof {
        assert(a@.subrange(0, na as int) =~= a@);
        assert(b@.subrange(0, nb as int) =~= b@);
    }
    let mut i: usize = 0;
    while i < na && i < nb
        invariant
            0 <= i <= na,
            0 <= i <= nb,
            lex_le(a@, b@) == lex_le(
                a@.subrange(i as int, na as int),
                b@.subrange(i as int, nb as int),
            ),
        decreases na - i,
    {
        let ghost sa = a@.subrange(i as int, na as int);
        let ghost sb = b@.subrange(i as int, nb as int);
        let ca = a.get_char(i);
        let cb = b.get_char(i);
        proof {
            assert(sa[0] == a@[i as int]);
            assert(sb[0] == b@[i as int]);
            assert(sa.drop_first() =~= a@.subrange(i + 1, na as int));
            assert(sb.drop_first() =~= b@.subrange(i + 1, nb as int));
        }
        if (ca as u32) < (cb as u32) {
            return true;
        }
        if (ca as u32) > (cb as u32) {
            return false;
        }
        i = i + 1;
    }
    proof {
        if i == na {
            assert(a@.subrange(i as int, na as int) =~= Seq::<char>::empty());
        } else {
            assert(b@.subrange(i as int, nb as int) =~= Seq::<char>::empty());
            assert(a@.subrange(i as int, na as int).len() > 0);
        }
    }
    i == na
}

// ------------------------------------------------------------------
// Sorting the entry lists
// ------------------------------------------------------------------

/// The column of one entry that a sort compares.
pub open spec fn entry_sort_key(e: (Seq<char>, Seq<char>), field: SortField) -> Seq<char> {
    match field {
        SortField::Name => e.0,
        SortField::Url => e.1,
    }
}

/// Insert an entry behind every entry that is not greater than it.
pub open spec fn insert_sorted(
    x: (Seq<char>, Seq<char>),
    s: Seq<(Seq<char>, Seq<char>)>,
    field: SortField,
) -> Seq<(Seq<char>, Seq<char>)>
    decreases s.len(),
{
    if s.len() == 0 {
        seq![x]
    } else if lex_le(entry_sort_key(s[0], field), entry_sort_key(x, field)) {
        seq![s[0]] + insert_sorted(x, s.drop_first(), field)
    } else {
        seq![x] + s
    }
}

pub open spec fn sort_rec(
    s: Seq<(Seq<char>, Seq<char>)>,
    acc: Seq<(Seq<char>, Seq<char>)>,
    field: SortField,
) -> Seq<(Seq<char>, Seq<char>)>
    decreases s.len(),
{
    if s.len() == 0 {
        acc
    } else {
        sort_rec(s.drop_first(), insert_sorted(s[0], acc, field), field)
    }
}

/// Insertion sort of the entries by the chosen column.
pub open spec fn sort_spec(s: Seq<(Seq<char>, Seq<char>)>, field: SortField) -> Seq<
    (Seq<char>, Seq<char>),
> {
    sort_rec(s, Seq::empty(), field)
}

/// The sorted insertion point is the first index whose key exceeds `x`'s.
proof fn lemma_insert_sorted_at(
    x: (Seq<char>, Seq<char>),
    s: Seq<(Seq<char>, Seq<char>)>,
    field: SortField,
    p: int,
)
    requires
        0 <= p <= s.len(),
        forall|j: int| 0 <= j < p ==> lex_le(entry_sort_key(s[j], field), entry_sort_key(x, field)),
        p == s.len() || !lex_le(entry_sort_key(s[p as int], field), entry_sort_key(x, field)),
    ensures
        insert_sorted(x, s, field) == s.subrange(0, p) + seq![x] + s.subrange(
            p,
            s.len() as int,
        ),
    decreases p,
{
    if p == 0 {
        if s.len() == 0 {
            assert(insert_sorted(x, s, field) =~= s.subrange(0, 0) + seq![x] + s.subrange(
                0,
                0,
            ));
        } else {
            assert(s.subrange(0, 0) + seq![x] + s.subrange(0, s.len() as int) =~= seq![x] + s);
        }
    } else {
        lemma_insert_sorted_at(x, s.drop_first(), field, p - 1);
        assert(s.drop_first().subrange(0, p - 1) =~= s.subrange(1, p));
        assert(s.drop_first().subrange(p - 1, s.drop_first().len() as int) =~= s.subrange(
            p,
            s.len() as int,
        ));
        assert(seq![s[0]] + (s.subrange(1, p) + seq![x] + s.subrange(p, s.len() as int))
            =~= s.subrange(0, p) + seq![x] + s.subrange(p, s.len() as int));
    }
}

fn entry_key_str<'a>(e: &'a (String, String), field: SortField) -> (r: &'a str)
    ensures
        r@ == entry_sort_key((e.0@, e.1@), field),
{
    match field {
        SortField::Name => e.0.as_str(),
        SortField::Url => e.1.as_str(),
    }
}

/// The pairs of a `(String, String)` vector as sequences.
pub open spec fn pairs_view(v: Seq<(String, String)>) -> Seq<(Seq<char>, Seq<char>)> {
    Seq::new(v.len(), |i: int| (v[i].0@, v[i].1@))
}

#[verifier::loop_isolation(false)]
fn insert_entry(out: &mut Vec<(String, String)>, x: (String, String), field: SortField)
    ensures
        pairs_view(final(out)@) == insert_sorted((x.0@, x.1@), pairs_view(old(out)@), field),
{
    let ghost gx = (x.0@, x.1@);
    let ghost s = pairs_view(old(out)@);
    let n = out.len();
    let mut p: usize = 0;
    while p < n && str_le(entry_key_str(&out[p], field), entry_key_str(&x, field))
        invariant
            0 <= p <= n,
            forall|j: int|
                0 <= j < p ==> lex_le(entry_sort_key(s[j], field), entry_sort_key(gx, field)),
        decreases n - p,
    {
        p = p + 1;
    }
    proof {
        lemma_insert_sorted_at(gx, s, field, p as int);
    }
    out.insert(p, x);
    proof {
        assert(pairs_view(final(out)@) =~= s.subrange(0, p as int) + seq![gx] + s.subrange(
            p as int,
            s.len() as int,
        ));
    }
}

/// The entries of an alias or link map, sorted by the chosen column.
#[verifier::loop_isolation(false)]
pub fn sort_entries(map: &NameMap, field: SortField) -> (r: Vec<(String, String)>)
    ensures
        pairs_view(r@) == sort_spec(map@, field),
{
    let items = map.items();
    let n = items.len();
    let mut out: Vec<(String, String)> = Vec::new();
    proof {
        assert(pairs_view(out@) =~= Seq::<(Seq<char>, Seq<char>)>::empty());
        assert(map@.subrange(0, n as int) =~= map@);
    }
    let mut i: usize = 0;
    while i < n
        invariant
            0 <= i <= n,
            sort_rec(map@.subrange(i as int, n as int), pairs_view(out@), field) == sort_spec(
                map@,
                field,
            ),
        decreases n - i,
    {
        let ghost rest = map@.subrange(i as int, n as int);
        let ghost acc = pairs_view(out@);
        let e = &items[i];
        insert_entry(&mut out, (e.0.clone(), e.1.clone()), field);
        proof {
            assert(rest[0] == map@[i as int]);
            assert(rest.drop_first() =~= map@.subrange(i + 1, n as int));
            assert(pairs_view(out@) == insert_sorted(map@[i as int], acc, field));
        }
        i = i + 1;
    }
    proof {
        assert(map@.subrange(n as int, n as int) =~= Seq::<(Seq<char>, Seq<char>)>::empty());
    }
    out
}

// ------------------------------------------------------------------
// Sorting the groups (always by name)
// ------------------------------------------------------------------

pub open spec fn insert_group_sorted(
    x: (Seq<char>, Seq<Seq<char>>),
    s: Seq<(Seq<char>, Seq<Seq<char>>)>,
) -> Seq<(Seq<char>, Seq<Seq<char>>)>
    decreases s.len(),
{
    if s.len() == 0 {
        seq![x]
    } else if lex_le(s[0].0, x.0) {
        seq![s[0]] + insert_group_sorted(x, s.drop_first())
    } else {
        seq![x] + s
    }
}

pub open spec fn sort_groups_rec(
    s: Seq<(Seq<char>, Seq<Seq<char>>)>,
    acc: Seq<(Seq<char>, Seq<Seq<char>>)>,
) -> Seq<(Seq<char>, Seq<Seq<char>>)>
    decreases s.len(),
{
    if s.len() == 0 {
        acc
    } else {
        sort_groups_rec(s.drop_first(), insert_group_sorted(s[0], acc))
    }
}

/// Insertion sort of the groups by name.
pub open spec fn sort_groups_spec(s: Seq<(Seq<char>, Seq<Seq<char>>)>) -> Seq<
    (Seq<char>, Seq<Seq<char>>),
> {
    sort_groups_rec(s, Seq::empty())
}

proof fn lemma_insert_group_sorted_at(
    x: (Seq<char>, Seq<Seq<char>>),
    s: Seq<(Seq<char>, Seq<Seq<char>>)>,
    p: int,
)
    requires
        0 <= p <= s.len(),
        forall|j: int| 0 <= j < p ==> lex_le(s[j].0, x.0),
        p == s.len() || !lex_le(s[p as int].0, x.0),
    ensures
        insert_group_sorted(x, s) == s.subrange(0, p) + seq![x] + s.subrange(p, s.len() as int),
    decreases p,
{
    if p == 0 {
        if s.len() == 0 {
            assert(insert_group_sorted(x, s) =~= s.subrange(0, 0) + seq![x] + s.subrange(0, 0));
        } else {
            assert(s.subrange(0, 0) + seq![x] + s.subrange(0, s.len() as int) =~= seq![x] + s);
        }
    } else {
        lemma_insert_group_sorted_at(x, s.drop_first(), p - 1);
        assert(s.drop_first().subrange(0, p - 1) =~= s.subrange(1, p));
        assert(s.drop_first().subrange(p - 1, s.drop_first().len() as int) =~= s.subrange(
            p,
            s.len() as int,
        ));
        assert(seq![s[0]] + (s.subrange(1, p) + seq![x] + s.subrange(p, s.len() as int))
            =~= s.subrange(0, p) + seq![x] + s.subrange(p, s.len() as int));
    }
}

/// The pairs of a `(String, Vec<String>)` vector as sequences.
pub open spec fn group_pairs_view(v: Seq<(String, Vec<String>)>) -> Seq<
    (Seq<char>, Seq<Seq<char>>),
> {
    Seq::new(v.len(), |i: int| (v[i].0@, v[i].1.deep_view()))
}

#[verifier::loop_isolation(false)]
fn insert_group(out: &mut Vec<(String, Vec<String>)>, x: (String, Vec<String>))
    ensures
        group_pairs_view(final(out)@) == insert_group_sorted(
            (x.0@, x.1.deep_view()),
            group_pairs_view(old(out)@),
        ),
{
    let ghost gx = (x.0@, x.1.deep_view());
    let ghost s = group_pairs_view(old(out)@);
    let n = out.len();
    let mut p: usize = 0;
    while p < n && str_le(out[p].0.as_str(), x.0.as_str())
        invariant
            0 <= p <= n,
            forall|j: int| 0 <= j < p ==> lex_le(s[j].0, gx.0),
        decreases n - p,
    {
        p = p + 1;
    }
    proof {
        lemma_insert_group_sorted_at(gx, s, p as int);
    }
    out.insert(p, x);
    proof {
        assert(group_pairs_view(final(out)@) =~= s.subrange(0, p as int) + seq![gx]
            + s.subrange(p as int, s.len() as int));
    }
}

/// The groups sorted by name, members untouched.
#[verifier::loop_isolation(false)]
pub fn sort_groups(map: &ListMap) -> (r: Vec<(String, Vec<String>)>)
    ensures
        group_pairs_view(r@) == sort_groups_spec(map@),
{
    let items = map.items();
    let n = items.len();
    let mut out: Vec<(String, Vec<String>)> = Vec::new();
    proof {
        assert(group_pairs_view(out@) =~= Seq::<(Seq<char>, Seq<Seq<char>>)>::empty());
        assert(map@.subrange(0, n as int) =~= map@);
    }
    let mut i: usize = 0;
    while i < n
        invariant
            0 <= i <= n,
            sort_groups_rec(map@.subrange(i as int, n as int), group_pairs_view(out@))
                == sort_groups_spec(map@),
        decreases n - i,
    {
        let ghost rest = map@.subrange(i as int, n as int);
        let ghost acc = group_pairs_view(out@);
        let e = &items[i];
        let mut members: Vec<String> = Vec::new();
        let m = e.1.len();
        let mut j: usize = 0;
        while j < m
            invariant
                0 <= j <= m,
                0 <= i < n,
                m == e.1.len(),
                e == &items@[i as int],
                members.deep_view() =~= e.1.deep_view().subrange(0, j as int),
            decreases m - j,
        {
            let ghost before = members.deep_view();
            members.push(e.1[j].clone());
            proof {
                assert(members.deep_view() =~= before.push(e.1.deep_view()[j as int]));
                assert(before.push(e.1.deep_view()[j as int]) =~= e.1.deep_view().subrange(
                    0,
                    j + 1,
                ));
            }
            j = j + 1;
        }
        proof {
            assert(e.1.deep_view().subrange(0, m as int) =~= e.1.deep_view());
            assert(members.deep_view() =~= map@[i as int].1);
        }
        insert_group(&mut out, (e.0.clone(), members));
        proof {
            assert(rest[0] == map@[i as int]);
            assert(rest.drop_first() =~= map@.subrange(i + 1, n as int));
            assert(group_pairs_view(out@) == insert_group_sorted(map@[i as int], acc));
        }
        i = i + 1;
    }
    proof {
        assert(map@.subrange(n as int, n as int) =~= Seq::<(Seq<char>, Seq<Seq<char>>)>::empty());
    }
    out
}


// ------------------------------------------------------------------
// What sorting guarantees
// ------------------------------------------------------------------

/// Any two strings compare one way or the other.
pub proof fn lemma_lex_le_total(a: Seq<char>, b: Seq<char>)
    ensures
        lex_le(a, b) || lex_le(b, a),
    decreases a.len(),
{
    if a.len() == 0 {
    } else if b.len() == 0 {
    } else if (a[0] as u32) == (b[0] as u32) {
        lemma_lex_le_total(a.drop_first(), b.drop_first());
    }
}

/// Lexicographic order is transitive.
pub proof fn lemma_lex_le_trans(a: Seq<char>, b: Seq<char>, c: Seq<char>)
    requires
        lex_le(a, b),
        lex_le(b, c),
    ensures
        lex_le(a, c),
    decreases a.len(),
{
    if a.len() == 0 {
    } else if b.len() == 0 {
    } else if c.len() == 0 {
    } else if (a[0] as u32) == (b[0] as u32) && (b[0] as u32) == (c[0] as u32) {
        lemma_lex_le_trans(a.drop_first(), b.drop_first(), c.drop_first());
    }
}

/// The keys come out in order.
pub open spec fn sorted_by_key(s: Seq<(Seq<char>, Seq<char>)>, field: SortField) -> bool {
    forall|i: int, j: int|
        0 <= i < j < s.len() ==> lex_le(entry_sort_key(s[i], field), entry_sort_key(s[j], field))
}

proof fn lemma_insert_sorted_stays_sorted(
    x: (Seq<char>, Seq<char>),
    s: Seq<(Seq<char>, Seq<char>)>,
    field: SortField,
)
    requires
        sorted_by_key(s, field),
    ensures
        sorted_by_key(insert_sorted(x, s, field), field),
        insert_sorted(x, s, field).len() == s.len() + 1,
        insert_sorted(x, s, field).to_multiset() == s.to_multiset().insert(x),
    decreases s.len(),
{
    broadcast use vstd::seq_lib::group_to_multiset_ensures;

    if s.len() == 0 {
        assert(seq![x].drop_first() =~= Seq::<(Seq<char>, Seq<char>)>::empty());
        assert(seq![x].to_multiset() =~= s.to_multiset().insert(x));
    } else if lex_le(entry_sort_key(s[0], field), entry_sort_key(x, field)) {
        assert(forall|i: int, j: int|
            0 <= i < j < s.drop_first().len() ==> lex_le(
                entry_sort_key(s.drop_first()[i], field),
                entry_sort_key(s.drop_first()[j], field),
            ));
        lemma_insert_sorted_stays_sorted(x, s.drop_first(), field);
        let r = insert_sorted(x, s, field);
        let rt = insert_sorted(x, s.drop_first(), field);
        assert(r == seq![s[0]] + rt);
        // every element of the tail is above the head
        assert forall|i: int, j: int|
            0 <= i < j < r.len() implies lex_le(
            entry_sort_key(r[i], field),
            entry_sort_key(r[j], field),
        ) by {
            if i == 0 {
                // r[j] is either x or an element of s, both at or above s[0]
                assert(r[j] == rt[j - 1]);
                assert(rt.to_multiset().contains(rt[j - 1]));
                assert(rt.to_multiset() == s.drop_first().to_multiset().insert(x));
                if rt[j - 1] == x {
                } else {
                    assert(s.drop_first().to_multiset().contains(rt[j - 1]));
                    let w = choose|w: int|
                        0 <= w < s.drop_first().len() && s.drop_first()[w] == rt[j - 1];
                    assert(s[w + 1] == rt[j - 1]);
                }
            } else {
                assert(r[i] == rt[i - 1] && r[j] == rt[j - 1]);
            }
        }
        assert(seq![s[0]].to_multiset() =~= Multiset::<
            (Seq<char>, Seq<char>),
        >::empty().insert(s[0]));
        vstd::seq_lib::lemma_multiset_commutative(seq![s[0]], rt);
        assert(r.to_multiset() =~= s.to_multiset().insert(x)) by {
            assert(s =~= seq![s[0]] + s.drop_first());
            vstd::seq_lib::lemma_multiset_commutative(seq![s[0]], s.drop_first());
        }
    } else {
        let r = seq![x] + s;
        assert forall|i: int, j: int|
            0 <= i < j < r.len() implies lex_le(
            entry_sort_key(r[i], field),
            entry_sort_key(r[j], field),
        ) by {
            lemma_lex_le_total(entry_sort_key(s[0], field), entry_sort_key(x, field));
            if i == 0 {
                assert(r[j] == s[j - 1]);
                if j > 1 {
                    assert(lex_le(entry_sort_key(s[0], field), entry_sort_key(s[j - 1], field)));
                    lemma_lex_le_trans(
                        entry_sort_key(x, field),
                        entry_sort_key(s[0], field),
                        entry_sort_key(r[j], field),
                    );
                }
            } else {
                assert(r[i] == s[i - 1] && r[j] == s[j - 1]);
            }
        }
        assert(seq![x].to_multiset() =~= Multiset::<
            (Seq<char>, Seq<char>),
        >::empty().insert(x));
        vstd::seq_lib::lemma_multiset_commutative(seq![x], s);
        assert(r.to_multiset() =~= s.to_multiset().insert(x));
    }
}

proof fn lemma_sort_rec_sorted(
    s: Seq<(Seq<char>, Seq<char>)>,
    acc: Seq<(Seq<char>, Seq<char>)>,
    field: SortField,
)
    requires
        sorted_by_key(acc, field),
    ensures
        sorted_by_key(sort_rec(s, acc, field), field),
        sort_rec(s, acc, field).to_multiset() == s.to_multiset().add(acc.to_multiset()),
    decreases s.len(),
{
    broadcast use vstd::seq_lib::group_to_multiset_ensures;

    if s.len() == 0 {
        assert(sort_rec(s, acc, field).to_multiset() =~= s.to_multiset().add(acc.to_multiset()));
    } else {
        lemma_insert_sorted_stays_sorted(s[0], acc, field);
        lemma_sort_rec_sorted(s.drop_first(), insert_sorted(s[0], acc, field), field);
        assert(s =~= seq![s[0]] + s.drop_first());
        vstd::seq_lib::lemma_multiset_commutative(seq![s[0]], s.drop_first());
        assert(seq![s[0]].to_multiset() =~= Multiset::<
            (Seq<char>, Seq<char>),
        >::empty().insert(s[0]));
        assert(sort_rec(s, acc, field).to_multiset() =~= s.to_multiset().add(
            acc.to_multiset(),
        ));
    }
}

/// Sorting the entries yields the same entries — none lost, none
/// invented, duplicates kept — with the chosen keys in order.
pub proof fn lemma_sort_spec_sorts(s: Seq<(Seq<char>, Seq<char>)>, field: SortField)
    ensures
        sorted_by_key(sort_spec(s, field), field),
        sort_spec(s, field).to_multiset() == s.to_multiset(),
        sort_spec(s, field).len() == s.len(),
{
    broadcast use vstd::seq_lib::group_to_multiset_ensures;

    lemma_sort_rec_sorted(s, Seq::empty(), field);
    assert(Seq::<(Seq<char>, Seq<char>)>::empty().to_multiset() =~= Multiset::<
        (Seq<char>, Seq<char>),
    >::empty());
    assert(sort_spec(s, field).to_multiset() =~= s.to_multiset());
    assert(sort_spec(s, field).to_multiset().len() == sort_spec(s, field).len());
    assert(s.to_multiset().len() == s.len());
}

} // verus!
