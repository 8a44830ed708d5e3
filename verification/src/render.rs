//! Rendering the catalogue as the aligned text listing the command line
//! prints: one section per non-empty namespace, keys sorted and padded to
//! a common width, one bullet row per entry.

use vstd::prelude::*;
use vstd::string::{StrSliceExecFns, StringExecFns};
use crate::config::{Config, DocModel};
use crate::web::{
    sort_spec, sort_entries, sort_groups_spec, sort_groups, SortField, pairs_view,
    group_pairs_view,
};
use crate::text::{join_comma_spec, join_comma};

verus! {

pub open spec fn spaces(n: nat) -> Seq<char>
    decreases n,
{
    if n == 0 {
        Seq::empty()
    } else {
        spaces((n - 1) as nat) + seq![' ']
    }
}

pub open spec fn nat_max(a: nat, b: nat) -> nat {
    if a > b {
        a
    } else {
        b
    }
}

/// The widest key of a section.
pub open spec fn max_key_len<V>(s: Seq<(Seq<char>, V)>) -> nat
    decreases s.len(),
{
    if s.len() == 0 {
        0
    } else {
        nat_max(s[0].0.len(), max_key_len(s.drop_first()))
    }
}

/// A key padded with spaces to the section's key width.
pub open spec fn pad_key(k: Seq<char>, w: nat) -> Seq<char> {
    if k.len() < w {
        k + spaces((w - k.len()) as nat)
    } else {
        k
    }
}

/// One bullet row.
pub open spec fn name_row(k: Seq<char>, text: Seq<char>, w: nat) -> Seq<char> {
    "\u{2022} "@ + pad_key(k, w) + " | "@ + text + "\n"@
}

pub open spec fn name_rows(s: Seq<(Seq<char>, Seq<char>)>, w: nat) -> Seq<char>
    decreases s.len(),
{
    if s.len() == 0 {
        Seq::empty()
    } else {
        name_row(s[0].0, s[0].1, w) + name_rows(s.drop_first(), w)
    }
}

/// A group's member list rendered in brackets.
pub open spec fn group_text(members: Seq<Seq<char>>) -> Seq<char> {
    "["@ + join_comma_spec(members) + "]"@
}

pub open spec fn group_rows(s: Seq<(Seq<char>, Seq<Seq<char>>)>, w: nat) -> Seq<char>
    decreases s.len(),
{
    if s.len() == 0 {
        Seq::empty()
    } else {
        name_row(s[0].0, group_text(s[0].1), w) + group_rows(s.drop_first(), w)
    }
}

/// The whole listing: empty sections are skipped, keys sorted, each
/// section padded to its own key width.
pub open spec fn render_config_spec(m: DocModel) -> Seq<char> {
    (if m.aliases.len() == 0 {
        Seq::<char>::empty()
    } else {
        "aliases:\n\n"@ + name_rows(
            sort_spec(m.aliases, SortField::Name),
            max_key_len(sort_spec(m.aliases, SortField::Name)),
        ) + "\n"@
    }) + (if m.links.len() == 0 {
        Seq::<char>::empty()
    } else {
        "links:\n\n"@ + name_rows(
            sort_spec(m.links, SortField::Name),
            max_key_len(sort_spec(m.links, SortField::Name)),
        ) + "\n"@
    }) + (if m.groups.len() == 0 {
        Seq::<char>::empty()
    } else {
        "groups:\n\n"@ + group_rows(
            sort_groups_spec(m.groups),
            max_key_len(sort_groups_spec(m.groups)),
        ) + "\n"@
    })
}

#[verifier::loop_isolation(false)]
fn push_spaces(out: &mut String, n: usize)
    ensures
        final(out)@ == old(out)@ + spaces(n as nat),
{
    proof {
        assert(old(out)@ + spaces(0) =~= old(out)@);
    }
    let mut i: usize = 0;
    while i < n
        invariant
            0 <= i <= n,
            out@ == old(out)@ + spaces(i as nat),
        decreases n - i,
    {
        out.append(" ");
        proof {
            reveal_strlit(" ");
            assert(" "@ =~= seq![' ']);
            assert(out@ =~= old(out)@ + spaces((i + 1) as nat));
        }
        i = i + 1;
    }
}

#[verifier::loop_isolation(false)]
fn max_width(entries: &Vec<(String, String)>) -> (r: usize)
    ensures
        r == max_key_len(pairs_view(entries@)),
{
    let ghost pv = pairs_view(entries@);
    let n = entries.len();
    let mut w: usize = 0;
    proof {
        assert(pv.subrange(0, n as int) =~= pv);
    }
    let mut i: usize = 0;
    while i < n
        invariant
            0 <= i <= n,
            nat_max(w as nat, max_key_len(pv.subrange(i as int, n as int))) == max_key_len(pv),
        decreases n - i,
    {
        let ghost rest = pv.subrange(i as int, n as int);
        proof {
            assert(rest[0] == pv[i as int]);
            assert(rest.drop_first() =~= pv.subrange(i + 1, n as int));
        }
        let l = entries[i].0.as_str().unicode_len();
        if l > w {
            w = l;
        }
        i = i + 1;
    }
    proof {
        assert(pv.subrange(n as int, n as int) =~= Seq::<(Seq<char>, Seq<char>)>::empty());
    }
    w
}

#[verifier::loop_isolation(false)]
fn group_max_width(entries: &Vec<(String, Vec<String>)>) -> (r: usize)
    ensures
        r == max_key_len(group_pairs_view(entries@)),
{
    let ghost pv = group_pairs_view(entries@);
    let n = entries.len();
    let mut w: usize = 0;
    proof {
        assert(pv.subrange(0, n as int) =~= pv);
    }
    let mut i: usize = 0;
    while i < n
        invariant
            0 <= i <= n,
            nat_max(w as nat, max_key_len(pv.subrange(i as int, n as int))) == max_key_len(pv),
        decreases n - i,
    {
        let ghost rest = pv.subrange(i as int, n as int);
        proof {
            assert(rest[0] == pv[i as int]);
            assert(rest.drop_first() =~= pv.subrange(i + 1, n as int));
        }
        let l = entries[i].0.as_str().unicode_len();
        if l > w {
            w = l;
        }
        i = i + 1;
    }
    proof {
        assert(pv.subrange(n as int, n as int) =~= Seq::<(Seq<char>, Seq<Seq<char>>)>::empty());
    }
    w
}

#[verifier::loop_isolation(false)]
fn append_name_rows(out: &mut String, entries: &Vec<(String, String)>, w: usize)
    ensures
        final(out)@ == old(out)@ + name_rows(pairs_view(entries@), w as nat),
{
    let ghost pv = pairs_view(entries@);
    let n = entries.len();
    proof {
        assert(pv.subrange(0, n as int) =~= pv);
    }
    let mut i: usize = 0;
    while i < n
        invariant
            0 <= i <= n,
            out@ + name_rows(pv.subrange(i as int, n as int), w as nat) == old(out)@
                + name_rows(pv, w as nat),
        decreases n - i,
    {
        let ghost pre = out@;
        let ghost rest = pv.subrange(i as int, n as int);
        let e = &entries[i];
        let klen = e.0.as_str().unicode_len();
        out.append("\u{2022} ");
        out.append(e.0.as_str());
        if klen < w {
            push_spaces(out, w - klen);
        }
        proof {
            assert(out@ =~= pre + "\u{2022} "@ + pad_key(pv[i as int].0, w as nat));
        }
        out.append(" | ");
        out.append(e.1.as_str());
        out.append("\n");
        proof {
            assert(rest[0] == pv[i as int]);
            assert(rest.drop_first() =~= pv.subrange(i + 1, n as int));
            assert(out@ =~= pre + name_row(pv[i as int].0, pv[i as int].1, w as nat));
            assert(out@ + name_rows(pv.subrange(i + 1, n as int), w as nat) =~= pre
                + name_rows(rest, w as nat));
        }
        i = i + 1;
    }
    proof {
        assert(pv.subrange(n as int, n as int) =~= Seq::<(Seq<char>, Seq<char>)>::empty());
        assert(out@ + Seq::<char>::empty() =~= out@);
    }
}

#[verifier::loop_isolation(false)]
fn append_group_rows(out: &mut String, entries: &Vec<(String, Vec<String>)>, w: usize)
    ensures
        final(out)@ == old(out)@ + group_rows(group_pairs_view(entries@), w as nat),
{
    let ghost pv = group_pairs_view(entries@);
    let n = entries.len();
    proof {
        assert(pv.subrange(0, n as int) =~= pv);
    }
    let mut i: usize = 0;
    while i < n
        invariant
            0 <= i <= n,
            out@ + group_rows(pv.subrange(i as int, n as int), w as nat) == old(out)@
                + group_rows(pv, w as nat),
        decreases n - i,
    {
        let ghost pre = out@;
        let ghost rest = pv.subrange(i as int, n as int);
        let e = &entries[i];
        let klen = e.0.as_str().unicode_len();
        out.append("\u{2022} ");
        out.append(e.0.as_str());
        if klen < w {
            push_spaces(out, w - klen);
        }
        proof {
            assert(out@ =~= pre + "\u{2022} "@ + pad_key(pv[i as int].0, w as nat));
        }
        out.append(" | [");
        let joined = join_comma(&e.1);
        out.append(joined.as_str());
        out.append("]");
        out.append("\n");
        proof {
            reveal_strlit(" | [");
            reveal_strlit(" | ");
            reveal_strlit("[");
            assert(" | ["@ =~= " | "@ + "["@);
            assert(rest[0] == pv[i as int]);
            assert(rest.drop_first() =~= pv.subrange(i + 1, n as int));
            assert(out@ =~= pre + name_row(pv[i as int].0, group_text(pv[i as int].1), w as nat));
            assert(out@ + group_rows(pv.subrange(i + 1, n as int), w as nat) =~= pre
                + group_rows(rest, w as nat));
        }
        i = i + 1;
    }
    proof {
        assert(pv.subrange(n as int, n as int) =~= Seq::<(Seq<char>, Seq<Seq<char>>)>::empty());
        assert(out@ + Seq::<char>::empty() =~= out@);
    }
}

/// Render the catalogue listing.
pub fn render_config(config: &Config) -> (r: String)
    ensures
        r@ == render_config_spec(config@),
{
    let mut out = String::new();
    if !config.aliases.is_empty() {
        out.append("aliases:\n\n");
        let sorted = sort_entries(&config.aliases, SortField::Name);
        let w = max_width(&sorted);
        append_name_rows(&mut out, &sorted, w);
        out.append("\n");
    }
    if !config.links.is_empty() {
        out.append("links:\n\n");
        let sorted = sort_entries(&config.links, SortField::Name);
        let w = max_width(&sorted);
        append_name_rows(&mut out, &sorted, w);
        out.append("\n");
    }
    if !config.groups.is_empty() {
        out.append("groups:\n\n");
        let sorted = sort_groups(&config.groups);
        let w = group_max_width(&sorted);
        append_group_rows(&mut out, &sorted, w);
        out.append("\n");
    }
    proof {
        assert(out@ =~= render_config_spec(config@));
    }
    out
}

/// Write a piece of text to standard output.
///
/// Relies on std::io::Stdout: the bytes handed over are written; a write
/// failure is ignored, as printing is best-effort.
#[verifier::external_body]
fn print_text(text: &str) {
    let _ = std::io::Write::write_all(&mut std::io::stdout(), text.as_bytes());
}

/// Print the catalogue listing to standard output: exactly the text that
/// `render_config` returns for this catalogue.
pub fn print_config(config: &Config) {
    let rendered = render_config(config);
    print_text(rendered.as_str());
}

} // verus!
