//! Recognising the two kinds of line that shape the forest.

use regex::Regex;
use vstd::prelude::*;

verus! {

/// A line that defines a symbol: the keyword at its very start, white space,
/// and the symbol's name, which is captured.
pub const DEFINITION_PATTERN: &'static str = "^Function\\s+(\\w+)";

/// A line that pulls in another procedure: the keyword at its very start,
/// white space, and the target between double quotes, which is captured.
pub const INCLUSION_PATTERN: &'static str = "^#include\\s+\"(.+)\"";

/// The ending of a procedure file's name.
pub const PROCEDURE_SUFFIX: &'static str = ".ipf";

/// What the first capture group of `pattern` holds in the leftmost match
/// within `text`, as the `regex` crate finds it; `None` where nothing matches,
/// where the group takes no part in the match, or where `pattern` is no
/// regular expression that the crate accepts.
pub uninterp spec fn first_group(pattern: Seq<char>, text: Seq<char>) -> Option<Seq<char>>;

/// Compiles `pattern` with `regex::Regex::new`, searches `text` with
/// `Regex::captures` and hands out the text of group 1 (`Captures::get`,
/// `Match::as_str`). Nothing is proved of it: the contract only gives the
/// outcome its name, `first_group`, which rests on the search being a
/// function of the pattern and the text alone.
#[verifier::external_body]
fn capture_first_group(pattern: &str, text: &str) -> (found: Option<String>)
    ensures
        found.deep_view() == first_group(pattern@, text@),
{
    let compiled = match Regex::new(pattern) {
        Ok(compiled) => compiled,
        Err(_) => return None,
    };
    let groups = compiled.captures(text)?;
    let group = groups.get(1)?;
    Some(group.as_str().to_string())
}

/// The symbol that `line` defines, if it is a definition line.
pub open spec fn definition_of(line: Seq<char>) -> Option<Seq<char>> {
    first_group(DEFINITION_PATTERN@, line)
}

/// The target that `line` pulls in, if it is an inclusion line.
pub open spec fn inclusion_of(line: Seq<char>) -> Option<Seq<char>> {
    first_group(INCLUSION_PATTERN@, line)
}

/// The symbol that `line` defines, if it is a definition line.
pub fn match_definition(line: &str) -> (symbol: Option<String>)
    ensures
        symbol.deep_view() == definition_of(line@),
{
    capture_first_group(DEFINITION_PATTERN, line)
}

/// The target that `line` pulls in, if it is an inclusion line.
pub fn match_inclusion(line: &str) -> (target: Option<String>)
    ensures
        target.deep_view() == inclusion_of(line@),
{
    capture_first_group(INCLUSION_PATTERN, line)
}

/// What a line contributes to the procedure that holds it.
#[derive(Debug)]
pub enum Directive {
    /// Another procedure is pulled in, under this target.
    Inclusion(String),
    /// A symbol of this name is defined.
    Definition(String),
}

/// The mathematical value of a [`Directive`].
pub ghost enum DirectiveView {
    Inclusion(Seq<char>),
    Definition(Seq<char>),
}

impl View for Directive {
    type V = DirectiveView;

    open spec fn view(&self) -> DirectiveView {
        match self {
            Directive::Inclusion(target) => DirectiveView::Inclusion(target@),
            Directive::Definition(symbol) => DirectiveView::Definition(symbol@),
        }
    }
}

impl DeepView for Directive {
    type V = DirectiveView;

    open spec fn deep_view(&self) -> DirectiveView {
        self@
    }
}

/// The directives of one line, from what each pattern captured in it. The two
/// patterns are independent, and the inclusion comes first.
pub open spec fn line_directives(
    target: Option<Seq<char>>,
    symbol: Option<Seq<char>>,
) -> Seq<DirectiveView> {
    let first = match target {
        Some(t) => seq![DirectiveView::Inclusion(t)],
        None => Seq::empty(),
    };
    let second = match symbol {
        Some(s) => seq![DirectiveView::Definition(s)],
        None => Seq::empty(),
    };
    first + second
}

/// The directives of a file, line after line.
pub open spec fn scan(lines: Seq<Seq<char>>) -> Seq<DirectiveView>
    decreases lines.len(),
{
    if lines.len() == 0 {
        Seq::empty()
    } else {
        scan(lines.drop_last()) + line_directives(
            inclusion_of(lines.last()),
            definition_of(lines.last()),
        )
    }
}

/// Lines that match neither pattern hold no directive.
pub proof fn lemma_scan_nothing(lines: Seq<Seq<char>>)
    requires
        forall|i: int|
            0 <= i < lines.len() ==> inclusion_of(#[trigger] lines[i]) is None && definition_of(
                lines[i],
            ) is None,
    ensures
        scan(lines) == Seq::<DirectiveView>::empty(),
    decreases lines.len(),
{
    if lines.len() > 0 {
        lemma_scan_nothing(lines.drop_last());
        assert(line_directives(inclusion_of(lines.last()), definition_of(lines.last()))
            =~= Seq::<DirectiveView>::empty());
    }
}

/// Appends to `found` the directives of one line, from what each pattern
/// captured in it.
pub fn push_directives(found: &mut Vec<Directive>, target: Option<String>, symbol: Option<String>)
    ensures
        final(found).deep_view() == old(found).deep_view() + line_directives(
            target.deep_view(),
            symbol.deep_view(),
        ),
{
    match target {
        Some(t) => {
            found.push(Directive::Inclusion(t));
        },
        None => {},
    }
    match symbol {
        Some(s) => {
            found.push(Directive::Definition(s));
        },
        None => {},
    }
    assert(found.deep_view() =~= old(found).deep_view() + line_directives(
        target.deep_view(),
        symbol.deep_view(),
    ));
}

/// The directives of a file, line after line.
pub fn scan_lines(lines: &Vec<String>) -> (found: Vec<Directive>)
    ensures
        found.deep_view() == scan(lines.deep_view()),
{
    let mut found: Vec<Directive> = Vec::new();
    let mut i: usize = 0;
    assert(lines.deep_view().take(0) =~= Seq::empty());
    assert(found.deep_view() =~= Seq::empty());
    while i < lines.len()
        invariant
            0 <= i <= lines.len(),
            found.deep_view() == scan(lines.deep_view().take(i as int)),
        decreases lines.len() - i,
    {
        let target = match_inclusion(lines[i].as_str());
        let symbol = match_definition(lines[i].as_str());
        push_directives(&mut found, target, symbol);
        proof {
            let upto = lines.deep_view().take(i + 1);
            assert(upto.drop_last() =~= lines.deep_view().take(i as int));
            assert(upto.last() == lines[i as int]@);
        }
        i += 1;
    }
    assert(lines.deep_view().take(lines.len() as int) =~= lines.deep_view());
    found
}

} // verus!
