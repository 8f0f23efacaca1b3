use vstd::prelude::*;
use crate::engine::{expand_seq, expansion_diags_prefix, substitute_all};
use crate::expr::{Context, Warning, ExpandError, Failure, grows, diags};
use crate::instance::res_view;
use crate::library::ComponentLibrary;
use crate::minify::{minify_seq, minify_nodes};
use crate::text::{chars_of, has_lit_at, string_of_range};
use crate::tree::{Tree, Node, nodes_view};

verus! {

/// Where a file named `name` is a template (its extension is `html`), its stem.
pub open spec fn html_stem(name: Seq<char>) -> Option<Seq<char>> {
    let ext = ".html"@;
    if name.len() > ext.len() && name.subrange(name.len() - ext.len(), name.len() as int) == ext {
        Some(name.subrange(0, name.len() - ext.len()))
    } else {
        None
    }
}

/// The stem of a template file name: `Some("card")` for `card.html`. Other
/// files, including one named just `.html`, give `None`: they are copied as they are.
pub fn template_stem(file_name: &str) -> (r: Option<String>)
    ensures
        match r {
            Some(s) => html_stem(file_name@) == Some(s@),
            None => html_stem(file_name@) is None,
        },
{
    let cs = chars_of(file_name);
    let k = ".html".unicode_len();
    if cs.len() > k && has_lit_at(&cs, cs.len() - k, ".html") {
        Some(string_of_range(&cs, 0, cs.len() - k))
    } else {
        None
    }
}

/// Whether an entry of the destination folder is hidden, and so kept when the
/// folder is cleaned.
pub fn is_hidden(file_name: &str) -> (r: bool)
    ensures
        r == (file_name@.len() > 0 && file_name@[0] == '.'),
{
    let cs = chars_of(file_name);
    cs.len() > 0 && cs[0] == '.'
}

/// The page that a document with top-level nodes `doc` becomes: expanded, then minified.
pub open spec fn generated(
    doc: Seq<Tree>,
    lib: Map<Seq<char>, Seq<Tree>>,
    path: Seq<char>,
    depth: nat,
) -> Result<Seq<Tree>, Failure> {
    match expand_seq(doc, lib, path, depth) {
        Ok(r) => Ok(minify_seq(r)),
        Err(f) => Err(f),
    }
}

/// Expands every component in a document and minifies the result.
pub fn generate_document(
    doc: &Vec<Node>,
    lib: &ComponentLibrary,
    ctx: &Context,
    depth: usize,
    warnings: &mut Vec<Warning>,
) -> (r: Result<Vec<Node>, ExpandError>)
    ensures
        res_view(r) == generated(nodes_view(doc@), lib@, ctx.file_path@, depth as nat),
        r is Ok ==> diags(final(warnings)@) == diags(old(warnings)@) + expansion_diags_prefix(
            nodes_view(doc@),
            doc@.len() as int,
            lib@,
            ctx.file_path@,
            depth as nat,
        ),
        grows(old(warnings)@, final(warnings)@),
{
    match substitute_all(doc, lib, ctx, depth, warnings) {
        Ok(expanded) => Ok(minify_nodes(&expanded)),
        Err(f) => Err(f),
    }
}

} // verus!
