//! Running a script: so far, scanning it.

use crate::error::LoxResult;
use crate::grammar::scan_items;
use crate::report::{
    diagnostics_of, diagnostics_view, errors_of, errors_view, values_of, Diagnostic,
    LoxResultIter,
};
use crate::scanner::{item_view, items_view, Scanner};
use crate::text::label_view;
use crate::token::{Token, TokenView};
use vstd::prelude::*;

verus! {

/// How to run a script.
#[derive(Debug)]
pub struct RunnerOptions {
    /// Whether the tokens of the script are handed out.
    pub print_tokens: bool,
}

impl Default for RunnerOptions {
    fn default() -> (options: Self)
        ensures
            options.print_tokens,
    {
        Self { print_tokens: true }
    }
}

/// What running a script gives to show: what to show of each of its
/// errors, and its tokens.
#[derive(Debug)]
pub struct Report<'src> {
    pub diagnostics: Vec<Diagnostic<'src>>,
    pub tokens: Vec<Token<'src>>,
}

/// The tokens as mathematical values.
pub open spec fn tokens_view(tokens: Seq<Token<'_>>) -> Seq<TokenView> {
    tokens.map_values(|token: Token<'_>| token@)
}

/// The values and the errors of results, taken as mathematical values, are
/// those of the results taken as mathematical values.
pub proof fn lemma_views_of_parts(results: Seq<LoxResult<Token<'_>>>)
    ensures
        values_of(items_view(results)) == tokens_view(values_of(results)),
        errors_of(items_view(results)) == errors_view(errors_of(results)),
    decreases results.len(),
{
    if results.len() == 0 {
        assert(values_of(items_view(results)) =~= tokens_view(values_of(results)));
        assert(errors_of(items_view(results)) =~= errors_view(errors_of(results)));
    } else {
        let before = results.drop_last();
        lemma_views_of_parts(before);
        assert(items_view(results).drop_last() =~= items_view(before));
        assert(items_view(results).last() == item_view(results.last()));
        match results.last() {
            Ok(token) => {
                assert(tokens_view(values_of(before).push(token)) =~= tokens_view(
                    values_of(before),
                ).push(token@));
            },
            Err(error) => {
                assert(errors_view(errors_of(before).push(error)) =~= errors_view(
                    errors_of(before),
                ).push(error@));
            },
        }
    }
}

/// Scans `script`, which `location` labels. Gives what to show of each error
/// of the scan, in their order, and the tokens of the scan, in their order,
/// if `options` asks for them.
pub fn run_script<'src>(
    script: &'src str,
    location: Option<&'src str>,
    options: &RunnerOptions,
) -> (report: Report<'src>)
    ensures
        diagnostics_view(report.diagnostics@) == diagnostics_of(
            script@,
            errors_of(scan_items(script@, label_view(location))),
        ),
        tokens_view(report.tokens@) == (if options.print_tokens {
            values_of(scan_items(script@, label_view(location)))
        } else {
            Seq::empty()
        }),
        forall|i: int|
            0 <= i < report.tokens.len() ==> !(#[trigger] report.tokens[i]).span@.exhausted,
{
    let scanner = Scanner::new(script, location);
    // Take in the whole scan, so that all of its errors are known before
    // anything else is done.
    let results = scanner.scan().collect();
    proof {
        lemma_views_of_parts(results@);
        lemma_values_are_results(results@);
    }
    let (tokens, diagnostics) = results.handle_errors(script);
    if options.print_tokens {
        Report { diagnostics, tokens }
    } else {
        assert(tokens_view(Seq::<Token<'src>>::empty()) =~= Seq::<TokenView>::empty());
        Report { diagnostics, tokens: Vec::new() }
    }
}

/// Each value of results is one of the results.
pub proof fn lemma_values_are_results<V, E>(results: Seq<Result<V, E>>)
    ensures
        forall|i: int|
            0 <= i < values_of(results).len() ==> results.contains(
                Ok(#[trigger] values_of(results)[i]),
            ),
    decreases results.len(),
{
    if results.len() > 0 {
        let before = results.drop_last();
        lemma_values_are_results(before);
        assert forall|i: int| 0 <= i < values_of(results).len() implies results.contains(
            Ok(#[trigger] values_of(results)[i]),
        ) by {
            if i < values_of(before).len() {
                let k = choose|k: int| 0 <= k < before.len() && before[k] == Ok::<V, E>(
                    values_of(before)[i],
                );
                assert(results[k] == before[k]);
            } else {
                assert(results[results.len() - 1] == results.last());
            }
        }
    }
}

} // verus!
