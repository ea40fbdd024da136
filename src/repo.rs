//! Resolving the schema at a path of a revision's tree into one script.
use vstd::prelude::*;
use vstd::utf8::{decode_utf8, valid_utf8};

use crate::merge::{SchemaError, file_views, keys_distinct, merge_admits, merge_sql_scripts, mergeable};
use crate::text::{has_prefix, starts_with};

verus! {

/// One entry of a revision's tree: its path from the root, whether it is a
/// file (and not a directory), and the bytes it holds.
pub struct TreeEntry {
    pub path: String,
    pub is_file: bool,
    pub data: Vec<u8>,
}

/// `p` without its leading `./` segments.
pub open spec fn strip_current_dir(p: Seq<char>) -> Seq<char>
    decreases p.len(),
{
    if p.len() >= 2 && has_prefix(p, seq!['.', '/']) {
        strip_current_dir(p.subrange(2, p.len() as int))
    } else {
        p
    }
}

/// The file entries whose path starts with `prefix`, in tree order. The test
/// is on characters, not on path segments.
pub open spec fn selected(entries: Seq<TreeEntry>, prefix: Seq<char>) -> Seq<TreeEntry>
    decreases entries.len(),
{
    if entries.len() == 0 {
        Seq::empty()
    } else {
        let prev = selected(entries.drop_last(), prefix);
        let e = entries.last();
        if e.is_file && has_prefix(e.path@, prefix) {
            prev.push(e)
        } else {
            prev
        }
    }
}

/// Every entry holds UTF-8 text.
pub open spec fn all_text(sel: Seq<TreeEntry>) -> bool {
    forall|i: int| 0 <= i < sel.len() ==> valid_utf8(#[trigger] sel[i].data@)
}

/// The entries as (path, text) pairs.
pub open spec fn decoded_files(sel: Seq<TreeEntry>) -> Seq<(Seq<char>, Seq<char>)> {
    sel.map_values(|e: TreeEntry| (e.path@, decode_utf8(e.data@)))
}

/// No two entries share a path.
pub open spec fn paths_distinct(entries: Seq<TreeEntry>) -> bool {
    forall|i: int, j: int|
        0 <= i < entries.len() && 0 <= j < entries.len() && i != j ==> entries[i].path@
            != entries[j].path@
}

/// What resolving the schema at `path` in a tree may give: an encoding error
/// naming a selected file that is not UTF-8 text, else the merge of the
/// selected files.
pub open spec fn schema_outcome(
    entries: Seq<TreeEntry>,
    path: Seq<char>,
    r: Result<String, SchemaError>,
) -> bool {
    let sel = selected(entries, strip_current_dir(path));
    let fs = decoded_files(sel);
    &&& (r is Err && r->Err_0 is EncodingError) <==> !all_text(sel)
    &&& r matches Err(SchemaError::EncodingError(p)) ==> exists|i: int|
        0 <= i < sel.len() && sel[i].path@ == p@ && !valid_utf8(#[trigger] sel[i].data@)
    &&& all_text(sel) ==> (r is Ok <==> mergeable(fs))
    &&& all_text(sel) ==> (r matches Ok(out) ==> merge_admits(fs, out@))
    &&& all_text(sel) ==> (r matches Err(e) ==> e == SchemaError::DependencyCycle)
}

/// Relies on `std::str::from_utf8`: it accepts exactly the valid UTF-8 byte
/// sequences and decodes them.
#[verifier::external_body]
fn utf8_text(bytes: &Vec<u8>) -> (r: Option<String>)
    ensures
        r is Some <==> valid_utf8(bytes@),
        r matches Some(t) ==> t@ == decode_utf8(bytes@),
{
    std::str::from_utf8(bytes.as_slice()).ok().map(String::from)
}

/// `path` without its leading `./` segments.
pub fn strip_current_dir_prefix(path: &str) -> (r: &str)
    ensures
        r@ == strip_current_dir(path@),
{
    proof {
        reveal_strlit("./");
    }
    let mut p = path;
    while starts_with(p, "./")
        invariant
            strip_current_dir(p@) == strip_current_dir(path@),
        decreases p@.len(),
    {
        proof {
            reveal_strlit("./");
        }
        assert("./"@ =~= seq!['.', '/']);
        let len = p.unicode_len();
        p = p.substring_char(2, len);
    }
    assert("./"@ =~= seq!['.', '/']);
    p
}

/// Resolves the schema at `schema_path` in the tree of a revision, `None`
/// when no commit answers to `revision`: the files whose path starts with
/// `schema_path` (a leading `./` aside) are merged into one script.
pub fn get_schema_script(revision: &str, tree: Option<&Vec<TreeEntry>>, schema_path: &str) -> (r:
    Result<String, SchemaError>)
    requires
        tree matches Some(entries) ==> paths_distinct(entries@),
    ensures
        tree is None ==> (r matches Err(SchemaError::RevisionNotFound(rev)) && rev@ == revision@),
        tree matches Some(entries) ==> schema_outcome(entries@, schema_path@, r),
{
    let entries = match tree {
        None => return Err(SchemaError::RevisionNotFound(String::from_str(revision))),
        Some(entries) => entries,
    };
    let prefix = strip_current_dir_prefix(schema_path);
    let ghost sel_all = selected(entries@, prefix@);
    let mut files: Vec<(String, String)> = Vec::new();
    let mut i: usize = 0;
    while i < entries.len()
        invariant
            tree == Some(entries),
            prefix@ == strip_current_dir(schema_path@),
            paths_distinct(entries@),
            i <= entries.len(),
            all_text(selected(entries@.subrange(0, i as int), prefix@)),
            file_views(files@) == decoded_files(selected(entries@.subrange(0, i as int), prefix@)),
            forall|x: int|
                #![trigger files@[x]]
                0 <= x < files.len() ==> exists|j: int|
                    0 <= j < i && #[trigger] entries@[j].path@ == files@[x].0@,
            keys_distinct(file_views(files@)),
        decreases entries.len() - i,
    {
        let ghost sub = entries@.subrange(0, i + 1);
        assert(sub.drop_last() =~= entries@.subrange(0, i as int));
        assert(sub.last() == entries@[i as int]);
        let e = &entries[i];
        if e.is_file && starts_with(e.path.as_str(), prefix) {
            match utf8_text(&e.data) {
                None => {
                    proof {
                        lemma_selected_suffix(entries@, prefix@, i as int);
                    }
                    return Err(SchemaError::EncodingError(e.path.clone()));
                },
                Some(text) => {
                    let ghost before = files@;
                    files.push((e.path.clone(), text));
                    proof {
                        let prev = selected(entries@.subrange(0, i as int), prefix@);
                        assert(selected(sub, prefix@) == prev.push(*e));
                        assert(file_views(files@) =~= file_views(before).push((e.path@, text@)));
                        assert(decoded_files(prev.push(*e)) =~= decoded_files(prev).push((e.path@, decode_utf8(e.data@))));
                        assert forall|x: int| 0 <= x < before.len() implies files@[x].0@ != e.path@ by {
                            let j = choose|j: int| 0 <= j < i && #[trigger] entries@[j].path@ == before[x].0@;
                            assert(file_views(before)[x].0 == before[x].0@);
                        }
                        assert forall|a: int, b: int| 0 <= a < files.len() && 0 <= b < files.len() && a != b implies file_views(files@)[a].0 != file_views(files@)[b].0 by {
                            if a < before.len() && b < before.len() {
                                assert(file_views(before)[a].0 != file_views(before)[b].0);
                            }
                        }
                        assert forall|x: int| #![trigger files@[x]] 0 <= x < files.len() implies exists|j: int|
                            0 <= j < i + 1 && #[trigger] entries@[j].path@ == files@[x].0@ by {
                            if x < before.len() {
                                let j = choose|j: int| 0 <= j < i && #[trigger] entries@[j].path@ == before[x].0@;
                                assert(files@[x] == before[x]);
                            } else {
                                assert(entries@[i as int].path@ == files@[x].0@);
                            }
                        }
                        assert forall|k: int| 0 <= k < prev.len() + 1 implies valid_utf8(#[trigger] prev.push(*e)[k].data@) by {
                            if k < prev.len() {
                                assert(prev.push(*e)[k] == prev[k]);
                            }
                        }
                    }
                },
            }
        }
        i = i + 1;
    }
    assert(entries@.subrange(0, entries.len() as int) =~= entries@);
    let r = merge_sql_scripts(&files);
    r
}

proof fn lemma_selected_suffix(entries: Seq<TreeEntry>, prefix: Seq<char>, i: int)
    requires
        0 <= i < entries.len(),
        entries[i].is_file,
        has_prefix(entries[i].path@, prefix),
        !valid_utf8(entries[i].data@),
    ensures
        !all_text(selected(entries, prefix)),
        exists|k: int|
            0 <= k < selected(entries, prefix).len() && selected(entries, prefix)[k].path@
                == entries[i].path@ && !valid_utf8(#[trigger] selected(entries, prefix)[k].data@),
    decreases entries.len(),
{
    let prev = selected(entries.drop_last(), prefix);
    if i == entries.len() - 1 {
        assert(selected(entries, prefix) == prev.push(entries[i]));
        assert(selected(entries, prefix)[prev.len() as int] == entries[i]);
    } else {
        lemma_selected_suffix(entries.drop_last(), prefix, i);
        let k = choose|k: int|
            0 <= k < prev.len() && prev[k].path@ == entries[i].path@ && !valid_utf8(
                #[trigger] prev[k].data@,
            );
        let e = entries.last();
        if e.is_file && has_prefix(e.path@, prefix) {
            assert(selected(entries, prefix)[k] == prev[k]);
        }
    }
}

/// A leading `./` does not change what a path resolves to.
pub proof fn lemma_leading_current_dir_ignored(
    entries: Seq<TreeEntry>,
    path: Seq<char>,
    r: Result<String, SchemaError>,
)
    ensures
        schema_outcome(entries, seq!['.', '/'] + path, r) == schema_outcome(entries, path, r),
{
    let p = seq!['.', '/'] + path;
    assert(has_prefix(p, seq!['.', '/'])) by {
        assert(p.subrange(0, 2) =~= seq!['.', '/']);
    }
    assert(p.subrange(2, p.len() as int) =~= path);
}

} // verus!
