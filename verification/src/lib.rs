//! Per-directory statistics of the files in a directory tree, selected by
//! extension: the scan state machine, the aggregation of subtree totals,
//! the visibility rule and the text and JSON renderers.

pub mod cli;
pub mod lang;
pub mod model;
pub mod render;
pub mod scanner;
pub mod text;

use crate::cli::{Cli, Format};
use crate::lang::{
    build_extensions, built, displayed_langs, first_unknown, invalid_lang, requested, EntryModel,
    LanguageRegistry, NameSet,
};
use crate::model::{aggregate, ScanResult};
use crate::render::{json_report, render_json, render_text, show_of, text_report, Summary};
use crate::scanner::compute_tree_counts;
use vstd::prelude::*;

verus! {

/// The message of a run for which no extension is selected.
pub open spec fn no_extensions() -> Seq<char> {
    "no extensions selected; provide --lang or --ext"@
}

/// The set of the extensions that the options select. It is an error if
/// a language is not known or if no extension is selected.
pub fn select_extensions(cli: &Cli, registry: &LanguageRegistry) -> (r: Result<NameSet, String>)
    requires
        registry.wf(),
    ensures
        match r {
            Ok(set) => {
                &&& first_unknown(registry@, requested(cli@.lang), 0) == requested(cli@.lang).len()
                &&& set.wf()
                &&& set@.len() > 0
                &&& forall|y: Seq<char>|
                    set.has(y) <==> built(registry@, cli@.lang, cli@.ext, cli.headers, y)
            },
            Err(message) => {
                let at = first_unknown(registry@, requested(cli@.lang), 0);
                if 0 <= at < requested(cli@.lang).len() {
                    message@ == invalid_lang(requested(cli@.lang)[at])
                } else {
                    &&& message@ == no_extensions()
                    &&& forall|y: Seq<char>|
                        !built(registry@, cli@.lang, cli@.ext, cli.headers, y)
                }
            },
        },
{
    match build_extensions(registry, &cli.lang, &cli.ext, cli.headers) {
        Ok(set) => {
            if set.is_empty() {
                proof {
                    assert forall|y: Seq<char>|
                        !built(registry@, cli@.lang, cli@.ext, cli.headers, y) by {
                        if built(registry@, cli@.lang, cli@.ext, cli.headers, y) {
                            assert(set.has(y));
                        }
                    }
                }
                Err("no extensions selected; provide --lang or --ext".to_owned())
            } else {
                Ok(set)
            }
        },
        Err(message) => Err(message),
    }
}

/// The report on the scan `scan` in the form that the options ask for,
/// with the subtree totals of the scanned tree.
pub open spec fn report(
    cli: &Cli,
    reg: Seq<EntryModel>,
    exts: Seq<Seq<char>>,
    scan: &ScanResult,
) -> Seq<char> {
    let counts = aggregate(scan.dirs@, scan.root@);
    let langs = displayed_langs(reg, cli@.lang);
    match cli.format {
        Format::Text => text_report(
            scan.dirs@,
            counts,
            show_of(cli),
            langs,
            exts,
            scan.total_files as nat,
            scan.dirs_with_files as nat,
        ),
        Format::Json => json_report(
            scan.dirs@,
            counts,
            show_of(cli),
            cli.json_pretty,
            Summary {
                root: scan.root@,
                langs,
                exts,
                max_depth: cli.max_depth,
                total_files: scan.total_files as nat,
                dirs_with_files: scan.dirs_with_files as nat,
            },
        ),
    }
}

/// Aggregates the subtree totals of a scan and renders the report.
pub fn run(cli: &Cli, registry: &LanguageRegistry, extensions: &NameSet, scan: &ScanResult) -> (r:
    String)
    requires
        scan.dirs.wf(),
    ensures
        r@ == report(cli, registry@, extensions@, scan),
{
    let tree_counts = compute_tree_counts(scan.root.as_str(), &scan.dirs);
    match cli.format {
        Format::Text => render_text(scan, &tree_counts, extensions, registry, &cli.lang, cli),
        Format::Json => render_json(
            scan,
            &tree_counts,
            extensions,
            registry,
            &cli.lang,
            cli,
            cli.json_pretty,
        ),
    }
}

} // verus!
