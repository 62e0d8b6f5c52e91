//! What go-to-definition and hover read off a source text: the name-shaped
//! tokens (identifiers and dotted labels), and the name at a cursor.

use vstd::prelude::*;

use crate::compiler::{lex, lexed};
use crate::lexeme::{ends_value, is_value_end, well_spanned, word_of, word_text, Span, Lexeme, LexemeKind};
use crate::position::is_boundary;

verus! {

/// A `.` at token `i` starts a dotted label when the next token is a word
/// glued to it, and the `.` is not itself glued to a value before it.
pub open spec fn starts_dotted_label(ts: Seq<Lexeme>, i: int) -> bool {
    &&& 0 <= i
    &&& i + 1 < ts.len()
    &&& ts[i].kind is Dot
    &&& ts[i + 1].span.start == ts[i].span.end
    &&& word_of(ts[i + 1].kind) is Some
    &&& !(i > 0 && ts[i - 1].span.end == ts[i].span.start && is_value_end(ts[i - 1].kind))
}

/// The names among tokens `i..` of `ts`, in order, each with its span:
/// every identifier, and every dotted label (`.` fused with its word).
pub open spec fn names_from(ts: Seq<Lexeme>, i: int) -> Seq<(Seq<char>, Span)>
    decreases ts.len() - i,
{
    if i < 0 || i >= ts.len() {
        seq![]
    } else if let LexemeKind::Identifier(name) = ts[i].kind {
        seq![(name@, ts[i].span)] + names_from(ts, i + 1)
    } else if starts_dotted_label(ts, i) {
        seq![
            (
                seq!['.'] + word_of(ts[i + 1].kind)->0,
                Span { start: ts[i].span.start, end: ts[i + 1].span.end },
            ),
        ] + names_from(ts, i + 2)
    } else {
        names_from(ts, i + 1)
    }
}

/// The names of tokens laid out as a lexer lays them lie on character
/// boundaries, each starting no later than it ends, in the order of their
/// starts; none of the names from token `i` on starts before token `i`.
pub proof fn lemma_names_well_spanned(cs: Seq<char>, ts: Seq<Lexeme>, i: int)
    requires
        well_spanned(cs, ts),
        0 <= i,
    ensures
        forall|k: int|
            0 <= k < names_from(ts, i).len() ==> {
                &&& is_boundary(cs, #[trigger] names_from(ts, i)[k].1.start as int)
                &&& is_boundary(cs, names_from(ts, i)[k].1.end as int)
                &&& names_from(ts, i)[k].1.start <= names_from(ts, i)[k].1.end
                &&& i < ts.len() ==> ts[i].span.start <= names_from(ts, i)[k].1.start
            },
        forall|a: int, b: int|
            0 <= a < b < names_from(ts, i).len() ==> #[trigger] names_from(ts, i)[a].1.start
                <= #[trigger] names_from(ts, i)[b].1.start,
    decreases ts.len() - i,
{
    if i < ts.len() {
        let all = names_from(ts, i);
        let skip: int = if ts[i].kind is Identifier {
            1
        } else if starts_dotted_label(ts, i) {
            2
        } else {
            1
        };
        lemma_names_well_spanned(cs, ts, i + skip);
        let rest = names_from(ts, i + skip);
        if i + skip < ts.len() {
            assert(ts[i].span.end <= ts[i + skip].span.start);
        }
        assert forall|k: int| 0 <= k < rest.len() implies ts[i].span.start <= #[trigger] rest[k].1.start by {
            assert(ts[i].span.start <= ts[i].span.end);
        }
        if ts[i].kind is Identifier || starts_dotted_label(ts, i) {
            if starts_dotted_label(ts, i) && !(ts[i].kind is Identifier) {
                assert(ts[i].span.end <= ts[i + 1].span.start);
                assert(ts[i + 1].span.start <= ts[i + 1].span.end);
            }
            assert(all.len() == rest.len() + 1);
            assert forall|k: int| 1 <= k < all.len() implies #[trigger] all[k] == rest[k - 1] by {}
            assert(all[0].1.start == ts[i].span.start);
            assert forall|a: int, b: int| 0 <= a < b < all.len() implies #[trigger] all[a].1.start
                <= #[trigger] all[b].1.start by {
                assert(all[b] == rest[b - 1]);
                if a > 0 {
                    assert(all[a] == rest[a - 1]);
                }
            }
        } else {
            assert(all == rest);
        }
    }
}

/// The text and span of each name, as plain values.
pub open spec fn names_view(names: Seq<(String, Span)>) -> Seq<(Seq<char>, Span)> {
    names.map_values(|n: (String, Span)| (n.0@, n.1))
}

/// Every name-shaped token in `tokens`, with its span: plain identifiers,
/// plus dotted label names (`.loop`), which the lexer yields as a `.`
/// glued to a following identifier or keyword. A `.` counts as a label's
/// leading dot when it is glued to the word after it but not to a value
/// before it: `jmp .loop` and `.loop:` fuse, `str.len` stays member access.
pub fn names(tokens: &[Lexeme]) -> (result: Vec<(String, Span)>)
    ensures
        names_view(result@) == names_from(tokens@, 0),
{
    let mut result: Vec<(String, Span)> = Vec::new();
    let mut index: usize = 0;
    while index < tokens.len()
        invariant
            index <= tokens@.len(),
            names_view(result@) + names_from(tokens@, index as int) == names_from(tokens@, 0),
        decreases tokens@.len() - index,
    {
        let token = &tokens[index];
        let ghost before = names_view(result@);
        if let LexemeKind::Identifier(name) = &token.kind {
            result.push((name.clone(), token.span));
            proof {
                assert(names_view(result@) =~= before + seq![(name@, token.span)]);
                assert(before + seq![(name@, token.span)] + names_from(tokens@, index + 1)
                    =~= before + names_from(tokens@, index as int));
            }
        } else if let LexemeKind::Dot = &token.kind {
            let mut fused: Option<(String, Span)> = None;
            if index + 1 < tokens.len() && tokens[index + 1].span.start == token.span.end {
                let glued_before = index > 0 && tokens[index - 1].span.end == token.span.start
                    && ends_value(&tokens[index - 1].kind);
                if !glued_before {
                    if let Some(word) = word_text(&tokens[index + 1].kind) {
                        let dot = String::from_str(".");
                        proof {
                            reveal_strlit(".");
                        }
                        let name = dot.concat(word.as_str());
                        fused = Some((name, Span { start: token.span.start, end: tokens[index + 1].span.end }));
                    }
                }
            }
            if let Some(named) = fused {
                proof {
                    assert(starts_dotted_label(tokens@, index as int));
                    assert(named.0@ =~= seq!['.'] + word_of(tokens@[index + 1].kind)->0);
                }
                result.push(named);
                proof {
                    assert(names_view(result@) =~= before + seq![(named.0@, named.1)]);
                    assert(before + seq![(named.0@, named.1)] + names_from(tokens@, index + 2)
                        =~= before + names_from(tokens@, index as int));
                }
                index = index + 2;
                continue;
            }
            proof {
                assert(!starts_dotted_label(tokens@, index as int));
            }
        }
        index = index + 1;
    }
    proof {
        assert(names_view(result@) + names_from(tokens@, index as int) =~= names_view(result@));
    }
    result
}

/// Whether `span` covers byte offset `offset`, or touches it at either
/// edge (a cursor right after a word is on that word).
pub open spec fn touches(span: Span, offset: int) -> bool {
    span.start <= offset && offset <= span.end
}

/// The first of `names` whose span touches `offset`.
pub open spec fn first_name_at(names: Seq<(Seq<char>, Span)>, offset: int) -> Option<Seq<char>>
    decreases names.len(),
{
    if names.len() == 0 {
        None
    } else if touches(names[0].1, offset) {
        Some(names[0].0)
    } else {
        first_name_at(names.drop_first(), offset)
    }
}

/// The name among `lexemes` whose span touches `offset`, if any.
pub fn name_at(lexemes: &[Lexeme], offset: usize) -> (name: Option<String>)
    ensures
        match name {
            Some(n) => first_name_at(names_from(lexemes@, 0), offset as int) == Some(n@),
            None => first_name_at(names_from(lexemes@, 0), offset as int) is None,
        },
{
    let found = names(lexemes);
    let mut i: usize = 0;
    proof {
        assert(names_view(found@).skip(0) =~= names_view(found@));
    }
    while i < found.len()
        invariant
            i <= found@.len(),
            names_view(found@) == names_from(lexemes@, 0),
            first_name_at(names_view(found@), offset as int) == first_name_at(
                names_view(found@).skip(i as int),
                offset as int,
            ),
        decreases found@.len() - i,
    {
        proof {
            let rest = names_view(found@).skip(i as int);
            assert(rest.drop_first() =~= names_view(found@).skip(i + 1));
            assert(rest[0] == (found@[i as int].0@, found@[i as int].1));
        }
        if found[i].1.start <= offset && offset <= found[i].1.end {
            let name = found[i].0.clone();
            proof {
                let rest = names_view(found@).skip(i as int);
                assert(first_name_at(rest, offset as int) == Some(rest[0].0));
                assert(name@ == rest[0].0);
            }
            return Some(name);
        }
        i = i + 1;
    }
    proof {
        assert(names_view(found@).skip(i as int) =~= Seq::<(Seq<char>, Span)>::empty());
    }
    None
}

/// The name (see `names`), if any, whose span covers `offset` in `text`, or
/// touches it at either edge; `None` when `text` does not lex.
pub fn identifier_at(text: &str, offset: usize) -> (name: Option<String>)
    ensures
        match lexed(text@) {
            None => name is None,
            Some(lexemes) => match name {
                Some(n) => first_name_at(names_from(lexemes, 0), offset as int) == Some(n@),
                None => first_name_at(names_from(lexemes, 0), offset as int) is None,
            },
        },
{
    let lexemes = lex(text)?;
    name_at(lexemes.as_slice(), offset)
}

/// The stages of analyzing one file, in the order they run: load the entry
/// file's own program, load the sources of its whole import graph, load
/// the flattened program with its modules, unroll its top level, validate
/// its facets, collect its symbols, evaluate its constants.
#[derive(Clone, Copy, Debug, PartialEq, Eq, Structural)]
pub enum AnalysisStage {
    LoadEntry,
    LoadSources,
    LoadModules,
    Unroll,
    ValidateFacets,
    CollectSymbols,
    EvaluateConsts,
    Done,
}

/// What follows a stage: whether its error is reported as a diagnostic,
/// and the stage to run next (`Done` when the analysis ends).
#[derive(Clone, Copy, Debug, PartialEq, Eq, Structural)]
pub struct StageAction {
    pub report_error: bool,
    pub next: AnalysisStage,
}

/// The stage that follows `stage` when it succeeded.
pub open spec fn following(stage: AnalysisStage) -> AnalysisStage {
    match stage {
        AnalysisStage::LoadEntry => AnalysisStage::LoadSources,
        AnalysisStage::LoadSources => AnalysisStage::LoadModules,
        AnalysisStage::LoadModules => AnalysisStage::Unroll,
        AnalysisStage::Unroll => AnalysisStage::ValidateFacets,
        AnalysisStage::ValidateFacets => AnalysisStage::CollectSymbols,
        AnalysisStage::CollectSymbols => AnalysisStage::EvaluateConsts,
        AnalysisStage::EvaluateConsts => AnalysisStage::Done,
        AnalysisStage::Done => AnalysisStage::Done,
    }
}

/// The decision after each stage. A failed stage's error is reported and
/// ends the analysis, but for two stages: a failure to load the import
/// graph's sources is ignored (they only serve to show diagnostics in other
/// files), and a failed constant evaluation is reported while the symbols
/// collected before it are kept.
pub open spec fn stage_action(stage: AnalysisStage, succeeded: bool) -> StageAction {
    if succeeded || stage == AnalysisStage::LoadSources {
        StageAction { report_error: false, next: following(stage) }
    } else {
        StageAction { report_error: stage != AnalysisStage::Done, next: AnalysisStage::Done }
    }
}

/// Decides what follows `stage` of an analysis, given whether it succeeded.
pub fn after_stage(stage: AnalysisStage, succeeded: bool) -> (action: StageAction)
    ensures
        action == stage_action(stage, succeeded),
{
    let next = match stage {
        AnalysisStage::LoadEntry => AnalysisStage::LoadSources,
        AnalysisStage::LoadSources => AnalysisStage::LoadModules,
        AnalysisStage::LoadModules => AnalysisStage::Unroll,
        AnalysisStage::Unroll => AnalysisStage::ValidateFacets,
        AnalysisStage::ValidateFacets => AnalysisStage::CollectSymbols,
        AnalysisStage::CollectSymbols => AnalysisStage::EvaluateConsts,
        AnalysisStage::EvaluateConsts => AnalysisStage::Done,
        AnalysisStage::Done => AnalysisStage::Done,
    };
    let tolerated = match stage {
        AnalysisStage::LoadSources => true,
        _ => false,
    };
    let finished = match stage {
        AnalysisStage::Done => true,
        _ => false,
    };
    if succeeded || tolerated {
        StageAction { report_error: false, next }
    } else {
        StageAction { report_error: !finished, next: AnalysisStage::Done }
    }
}

/// Law: a failed stage is reported as a diagnostic and ends the analysis,
/// whichever stage it is, but for loading the import graph's sources, whose
/// failure is passed over; a successful stage never reports anything and
/// moves on to the stage after it.
pub proof fn law_failures_are_reported(stage: AnalysisStage, succeeded: bool)
    requires
        stage != AnalysisStage::Done,
    ensures
        !succeeded && stage != AnalysisStage::LoadSources ==> stage_action(stage, succeeded)
            == (StageAction { report_error: true, next: AnalysisStage::Done }),
        !succeeded && stage == AnalysisStage::LoadSources ==> stage_action(stage, succeeded)
            == (StageAction { report_error: false, next: AnalysisStage::LoadModules }),
        succeeded ==> !stage_action(stage, succeeded).report_error,
        succeeded ==> stages_left(stage_action(stage, succeeded).next) + 1 == stages_left(stage),
{
}

/// Which results of an analysis survive it: the entry file's own imports,
/// and the symbols together with the imported labels found beside them.
#[derive(Clone, Copy, Debug, PartialEq, Eq, Structural)]
pub struct KeptResults {
    pub imports: bool,
    pub symbols: bool,
}

/// What an analysis keeps, given the last stage it ran and whether that
/// stage failed: the imports once the entry file has loaded, and the
/// symbols (with the imported labels) once they have been collected, even
/// when evaluating the constants then fails.
pub open spec fn kept_results(last: AnalysisStage, failed: bool) -> KeptResults {
    KeptResults {
        imports: !(last == AnalysisStage::LoadEntry && failed),
        symbols: last == AnalysisStage::EvaluateConsts,
    }
}

/// Decides what an analysis keeps, given the last stage it ran and whether
/// that stage failed.
pub fn results_kept(last: AnalysisStage, failed: bool) -> (kept: KeptResults)
    ensures
        kept == kept_results(last, failed),
{
    let entry_failed = match last {
        AnalysisStage::LoadEntry => failed,
        _ => false,
    };
    let collected = match last {
        AnalysisStage::EvaluateConsts => true,
        _ => false,
    };
    KeptResults { imports: !entry_failed, symbols: collected }
}

/// Law: an analysis that stops (its last stage leads to `Done`) keeps its
/// symbols exactly when that stage was constant evaluation, which only a
/// successful symbol collection leads to; and whenever it keeps symbols it
/// keeps the imports too.
pub proof fn law_kept_results(last: AnalysisStage, failed: bool)
    requires
        last != AnalysisStage::Done,
        stage_action(last, !failed).next == AnalysisStage::Done,
    ensures
        kept_results(last, failed).symbols <==> last == AnalysisStage::EvaluateConsts,
        kept_results(last, failed).symbols ==> kept_results(last, failed).imports,
        !kept_results(last, failed).imports <==> last == AnalysisStage::LoadEntry,
        last != AnalysisStage::EvaluateConsts ==> failed,
{
}

/// How many stages are left before `Done`.
pub open spec fn stages_left(stage: AnalysisStage) -> nat {
    match stage {
        AnalysisStage::LoadEntry => 7,
        AnalysisStage::LoadSources => 6,
        AnalysisStage::LoadModules => 5,
        AnalysisStage::Unroll => 4,
        AnalysisStage::ValidateFacets => 3,
        AnalysisStage::CollectSymbols => 2,
        AnalysisStage::EvaluateConsts => 1,
        AnalysisStage::Done => 0,
    }
}

/// Law: every stage but `Done` moves the analysis strictly closer to
/// `Done`, so an analysis ends after at most seven stages, whatever
/// succeeds or fails.
pub proof fn law_analysis_ends(stage: AnalysisStage, succeeded: bool)
    ensures
        stage != AnalysisStage::Done ==> stages_left(stage_action(stage, succeeded).next) < stages_left(stage),
        stage == AnalysisStage::Done ==> stage_action(stage, succeeded).next == AnalysisStage::Done,
{
}

/// Law: symbols are collected only in an analysis whose every earlier stage
/// succeeded or was tolerated: the only stage that leads to
/// `EvaluateConsts` is a successful `CollectSymbols`, and the only way to
/// `CollectSymbols` is through successful earlier stages.
pub proof fn law_symbols_need_success(stage: AnalysisStage, succeeded: bool)
    ensures
        stage_action(stage, succeeded).next == AnalysisStage::EvaluateConsts ==> stage
            == AnalysisStage::CollectSymbols && succeeded,
        stage_action(stage, succeeded).next == AnalysisStage::CollectSymbols ==> stage
            == AnalysisStage::ValidateFacets && succeeded,
        stage_action(stage, succeeded).next == AnalysisStage::ValidateFacets ==> stage
            == AnalysisStage::Unroll && succeeded,
        stage_action(stage, succeeded).next == AnalysisStage::Unroll ==> stage
            == AnalysisStage::LoadModules && succeeded,
        stage_action(stage, succeeded).next == AnalysisStage::LoadModules ==> stage
            == AnalysisStage::LoadSources,
        stage_action(stage, succeeded).next == AnalysisStage::LoadSources ==> stage
            == AnalysisStage::LoadEntry && succeeded,
{
}

} // verus!
