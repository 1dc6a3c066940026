//! The stages put together: every source of a map is parsed and its
//! syntax tree dumped, and the diagnostics of all sources are collected and
//! rendered.

use crate::diagnostics::render::{ansi_style, lemma_renderable_in_map, renderable, rendered};
use crate::diagnostics::{diagnostic_views, Diagnostic, DiagnosticView};
use crate::lex::lex;
use crate::parse::visit::{file_text, pretty_print};
use crate::parse::{file_of, parse_source, source_errors};
use crate::source_map::{Source, SourceMap};
use crate::FResult;
use vstd::prelude::*;
use vstd::string::*;

verus! {

/// What is written for `source`: the dump of its syntax tree on a line of
/// its own, or nothing where it has errors, lexical or syntactic.
pub open spec fn source_output(source: Source) -> Seq<char> {
    if source_errors(source).len() == 0 {
        file_text(source, file_of(lex(source.bytes(), source.id()))) + "\n"@
    } else {
        Seq::empty()
    }
}

/// What is written for `sources`, source after source.
pub open spec fn outputs(sources: Seq<Source>) -> Seq<char>
    decreases sources.len(),
{
    if sources.len() == 0 {
        Seq::empty()
    } else {
        outputs(sources.drop_last()) + source_output(sources.last())
    }
}

/// The diagnostics of `sources`, source after source.
pub open spec fn all_errors(sources: Seq<Source>) -> Seq<DiagnosticView>
    decreases sources.len(),
{
    if sources.len() == 0 {
        Seq::empty()
    } else {
        all_errors(sources.drop_last()) + source_errors(sources.last())
    }
}

/// The reports of `diagnostics`, each followed by an empty line.
pub open spec fn reports(sm: SourceMap, diagnostics: Seq<DiagnosticView>) -> Seq<char>
    decreases diagnostics.len(),
{
    if diagnostics.len() == 0 {
        Seq::empty()
    } else {
        reports(sm, diagnostics.drop_last()) + rendered(ansi_style(), sm, diagnostics.last())
            + "\n"@
    }
}

/// Parses every source of `sm`. The syntax tree of each source without
/// errors is dumped to `out`; the diagnostics of the others, those of the
/// lexer or those of the parser, come back together, and each of them can
/// be rendered with `sm`.
pub fn pipeline(sm: &SourceMap, out: &mut String) -> (result: FResult<()>)
    ensures
        final(out)@ == old(out)@ + outputs(sm.spec_sources()),
        match result {
            Ok(_) => all_errors(sm.spec_sources()).len() == 0,
            Err(errors) => {
                &&& diagnostic_views(errors@) == all_errors(sm.spec_sources())
                &&& errors@.len() > 0
                &&& forall|i: int|
                    0 <= i < errors@.len() ==> renderable(*sm, (#[trigger] errors@[i])@)
            },
        },
{
    let mut errors: Vec<Diagnostic> = Vec::new();
    let sources = sm.sources();
    let ghost all = sm.spec_sources();
    let mut i: usize = 0;
    proof {
        assert(all.take(0) =~= Seq::empty());
        assert(out@ =~= old(out)@ + outputs(all.take(0)));
        assert(diagnostic_views(errors@) =~= all_errors(all.take(0)));
    }

    while i < sources.len()
        invariant
            i <= sources@.len(),
            sources@ == all,
            all == sm.spec_sources(),
            forall|k: int|
                0 <= k < sources@.len() ==> {
                    &&& sm.contains_id((#[trigger] sources@[k]).id())
                    &&& sm.source_of(sources@[k].id()) == sources@[k]
                },
            out@ == old(out)@ + outputs(all.take(i as int)),
            diagnostic_views(errors@) == all_errors(all.take(i as int)),
            forall|k: int| 0 <= k < errors@.len() ==> renderable(*sm, (#[trigger] errors@[k])@),
        decreases sources@.len() - i,
    {
        let source = &sources[i];
        let ghost written = out@;
        let ghost found = errors@;
        proof {
            assert(all.take(i + 1).drop_last() =~= all.take(i as int));
            assert(all.take(i + 1).last() == *source);
            assert(sm.contains_id(sources@[i as int].id()));
        }
        match parse_source(source) {
            Ok(parsed) => {
                pretty_print(&parsed, source, out);
                out.append("\n");
                proof {
                    assert(out@ =~= written + source_output(*source));
                    assert(diagnostic_views(errors@) + source_errors(*source)
                        =~= diagnostic_views(errors@));
                }
            },
            Err(e) => {
                let mut e = e;
                let ghost new = e@;
                errors.append(&mut e);
                proof {
                    assert(written + source_output(*source) =~= written);
                    assert(diagnostic_views(errors@) =~= diagnostic_views(found)
                        + diagnostic_views(new));
                    assert forall|k: int| 0 <= k < errors@.len() implies renderable(
                        *sm,
                        (#[trigger] errors@[k])@,
                    ) by {
                        if k >= found.len() {
                            assert(errors@[k] == new[k - found.len()]);
                            lemma_renderable_in_map(*sm, *source, new[k - found.len()]@);
                        } else {
                            assert(errors@[k] == found[k]);
                        }
                    }
                }
            },
        }
        i += 1;
    }
    proof {
        assert(all.take(i as int) =~= all);
    }

    if !errors.is_empty() {
        return Err(errors);
    }
    Ok(())
}

/// Appends to `out` the report of each of `errors`, with ANSI styling,
/// and an empty line after each.
pub fn render_all(errors: &[Diagnostic], out: &mut String, sm: &SourceMap)
    requires
        forall|i: int| 0 <= i < errors@.len() ==> renderable(*sm, (#[trigger] errors@[i])@),
    ensures
        final(out)@ == old(out)@ + reports(*sm, diagnostic_views(errors@)),
{
    let ghost views = diagnostic_views(errors@);
    let mut i: usize = 0;
    proof {
        assert(views.take(0) =~= Seq::empty());
        assert(out@ =~= old(out)@ + reports(*sm, views.take(0)));
    }
    while i < errors.len()
        invariant
            i <= errors@.len(),
            views == diagnostic_views(errors@),
            forall|k: int| 0 <= k < errors@.len() ==> renderable(*sm, (#[trigger] errors@[k])@),
            out@ == old(out)@ + reports(*sm, views.take(i as int)),
        decreases errors@.len() - i,
    {
        let ghost written = out@;
        proof {
            assert(views.take(i + 1).drop_last() =~= views.take(i as int));
            assert(views.take(i + 1).last() == errors@[i as int]@);
        }
        errors[i].render(out, sm);
        out.append("\n");
        proof {
            assert(out@ =~= old(out)@ + reports(*sm, views.take(i + 1)));
        }
        i += 1;
    }
    proof {
        assert(views.take(i as int) =~= views);
    }
}

} // verus!
