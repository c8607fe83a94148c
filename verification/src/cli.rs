//! Argument handling shared by the command-line front end.

use vstd::prelude::*;

use crate::models::{opt_view, ScriptInfo};
use crate::text::{
    decimal, join, join_strings, lemma_pieces_trimmed, lemma_split_join, lemma_trimmed_pieces_avoid,
    push_str, split, trim, trimmed_non_empty,
    trimmed_pieces, u64_string, views, Separator,
};

verus! {

/// The tags of a comma-separated list: entries trimmed, empty ones dropped.
pub open spec fn tag_list(tags: Option<Seq<char>>) -> Seq<Seq<char>> {
    let text = match tags {
        Some(t) => t,
        None => Seq::empty(),
    };
    trimmed_non_empty(split(text, Separator::Char(',')))
}

/// Turns an optional comma-separated tag list into tags.
pub fn tags_to_vec(tags: Option<String>) -> (r: Vec<String>)
    ensures
        views(r@) == tag_list(opt_view(tags)),
{
    let text = match tags {
        Some(t) => t,
        None => String::new(),
    };
    trimmed_pieces(text.as_str(), Separator::Char(','))
}

/// The tag filter of a listing: the tags of the list, or no filter when
/// it names none.
pub fn tag_filter(tags: Option<String>) -> (r: Option<Vec<String>>)
    ensures
        tag_list(opt_view(tags)).len() == 0 ==> r is None,
        tag_list(opt_view(tags)).len() > 0 ==> (r matches Some(v) && views(v@) == tag_list(
            opt_view(tags),
        )),
{
    let v = tags_to_vec(tags);
    if v.len() == 0 {
        None
    } else {
        Some(v)
    }
}

/// A deletion goes ahead only when confirmed.
pub fn delete_confirmation(yes: bool) -> (r: Result<(), String>)
    ensures
        yes ==> r is Ok,
        !yes ==> (r matches Err(e) && e@ == "refusing delete without --yes"@),
{
    if yes {
        Ok(())
    } else {
        Err(String::from_str("refusing delete without --yes"))
    }
}

/// The message for a missing resource: `<name> not found: <id>`.
pub open spec fn not_found_message(name: Seq<char>, id: Seq<char>) -> Seq<char> {
    name + seq![' ', 'n', 'o', 't', ' ', 'f', 'o', 'u', 'n', 'd', ':', ' '] + id
}

/// The value when present, else the not-found error for the resource.
pub fn require_found<T>(value: Option<T>, resource_name: &str, resource_id: &str) -> (r: Result<T, String>)
    ensures
        match value {
            Some(v) => r == Ok::<T, String>(v),
            None => r matches Err(e) && e@ == not_found_message(resource_name@, resource_id@),
        },
{
    match value {
        Some(v) => Ok(v),
        None => {
            let mut message = String::new();
            push_str(&mut message, resource_name);
            push_str(&mut message, " not found: ");
            push_str(&mut message, resource_id);
            proof {
                reveal_strlit(" not found: ");
            }
            assert(message@ =~= not_found_message(resource_name@, resource_id@));
            Err(message)
        },
    }
}

/// Every tag taken from a list is non-empty and has no white space at
/// either end.
pub proof fn lemma_tags_trimmed(tags: Option<Seq<char>>)
    ensures
        forall|i: int|
            0 <= i < tag_list(tags).len() ==> (#[trigger] tag_list(tags)[i]).len() > 0 && trim(
                tag_list(tags)[i],
            ) == tag_list(tags)[i],
{
    let text = match tags {
        Some(t) => t,
        None => Seq::empty(),
    };
    lemma_pieces_trimmed(split(text, Separator::Char(',')));
}

/// No tag holds a comma: the list is cut at every comma.
pub proof fn lemma_tags_have_no_comma(tags: Option<Seq<char>>)
    ensures
        forall|i: int, k: int|
            0 <= i < tag_list(tags).len() && 0 <= k < tag_list(tags)[i].len() ==> #[trigger] tag_list(
                tags,
            )[i][k] != ',',
{
    let text = match tags {
        Some(t) => t,
        None => Seq::empty(),
    };
    lemma_split_join(text, ',');
    lemma_trimmed_pieces_avoid(split(text, Separator::Char(',')), ',');
}

/// The lines that show the `n`-th script of a listing: `<n>. <id>`, its
/// path, its description when it has one, and its tags when it has any.
pub open spec fn entry_lines(n: nat, item: ScriptInfo) -> Seq<Seq<char>> {
    let head = decimal(n) + seq!['.', ' '] + item.script_id@;
    let path = seq![' ', ' ', ' ', 'p', 'a', 't', 'h', ':', ' '] + item.path@;
    let base = seq![head, path];
    let with_desc = match item.description {
        Some(d) => base.push(seq![' ', ' ', ' ', 'd', 'e', 's', 'c', ':', ' '] + d@),
        None => base,
    };
    if item.tags.len() > 0 {
        with_desc.push(
            seq![' ', ' ', ' ', 't', 'a', 'g', 's', ':', ' '] + join(views(item.tags@), seq![',', ' ']),
        )
    } else {
        with_desc
    }
}

/// The lines of the entries of a listing, numbered from 1.
pub open spec fn entries_lines(items: Seq<ScriptInfo>) -> Seq<Seq<char>>
    decreases items.len(),
{
    if items.len() == 0 {
        Seq::empty()
    } else {
        entries_lines(items.drop_last()) + entry_lines(items.len(), items.last())
    }
}

/// The text a listing shows: `no scripts` when it is empty, else its
/// entries.
pub open spec fn listing_text(items: Seq<ScriptInfo>) -> Seq<Seq<char>> {
    if items.len() == 0 {
        seq![seq!['n', 'o', ' ', 's', 'c', 'r', 'i', 'p', 't', 's']]
    } else {
        entries_lines(items)
    }
}

fn labelled(label: &str, value: &str) -> (r: String)
    ensures
        r@ == label@ + value@,
{
    let mut r = String::new();
    push_str(&mut r, label);
    push_str(&mut r, value);
    r
}

/// The lines that show a listing of scripts.
pub fn script_infos_lines(items: &[ScriptInfo]) -> (lines: Vec<String>)
    ensures
        views(lines@) == listing_text(items@),
{
    let mut lines: Vec<String> = Vec::new();
    if items.len() == 0 {
        let m = String::from_str("no scripts");
        proof {
            reveal_strlit("no scripts");
        }
        assert(m@ =~= seq!['n', 'o', ' ', 's', 'c', 'r', 'i', 'p', 't', 's']);
        lines.push(m);
        assert(views(lines@) =~= listing_text(items@));
        return lines;
    }
    let mut i: usize = 0;
    assert(items@.take(0) =~= Seq::<ScriptInfo>::empty());
    while i < items.len()
        invariant
            i <= items.len(),
            views(lines@) == entries_lines(items@.take(i as int)),
        decreases items.len() - i,
    {
        assert(items@.take(i + 1).drop_last() =~= items@.take(i as int));
        let item = &items[i];
        let ghost before = views(lines@);
        let ghost n = (i + 1) as nat;
        proof {
            reveal_strlit(". ");
            reveal_strlit("   path: ");
            reveal_strlit("   desc: ");
            reveal_strlit("   tags: ");
            reveal_strlit(", ");
        }
        assert(". "@ =~= seq!['.', ' ']);
        assert("   path: "@ =~= seq![' ', ' ', ' ', 'p', 'a', 't', 'h', ':', ' ']);
        assert("   desc: "@ =~= seq![' ', ' ', ' ', 'd', 'e', 's', 'c', ':', ' ']);
        assert("   tags: "@ =~= seq![' ', ' ', ' ', 't', 'a', 'g', 's', ':', ' ']);
        assert(", "@ =~= seq![',', ' ']);
        let number = u64_string((i + 1) as u64);
        let mut head = labelled(number.as_str(), ". ");
        push_str(&mut head, item.script_id.as_str());
        let path = labelled("   path: ", item.path.as_str());
        let ghost base = seq![head@, path@];
        assert(base =~= seq![
            decimal(n) + seq!['.', ' '] + item.script_id@,
            seq![' ', ' ', ' ', 'p', 'a', 't', 'h', ':', ' '] + item.path@,
        ]);
        let mut entry: Vec<String> = Vec::new();
        entry.push(head);
        entry.push(path);
        assert(views(entry@) =~= base);
        match &item.description {
            Some(d) => {
                let line = labelled("   desc: ", d.as_str());
                let ghost pre = views(entry@);
                entry.push(line);
                assert(views(entry@) =~= pre.push(line@));
            },
            None => {},
        }
        if item.tags.len() > 0 {
            let tags = join_strings(item.tags.as_slice(), ", ");
            let line = labelled("   tags: ", tags.as_str());
            let ghost pre = views(entry@);
            entry.push(line);
            assert(views(entry@) =~= pre.push(line@));
        }
        assert(views(entry@) =~= entry_lines(n, items@[i as int]));
        let mut k: usize = 0;
        while k < entry.len()
            invariant
                k <= entry.len(),
                views(lines@) == before + views(entry@).take(k as int),
            decreases entry.len() - k,
        {
            let ghost pre = views(lines@);
            lines.push(entry[k].clone());
            assert(views(lines@) =~= pre.push(entry@[k as int]@));
            k = k + 1;
            assert(views(entry@).take(k as int) =~= views(entry@).take(k - 1).push(entry@[k - 1]@));
        }
        assert(views(entry@).take(entry.len() as int) =~= views(entry@));
        assert(views(lines@) =~= before + entry_lines((i + 1) as nat, items@[i as int]));
        i = i + 1;
    }
    assert(items@.take(items.len() as int) =~= items@);
    lines
}

} // verus!
