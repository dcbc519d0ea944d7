//! Reading a server's semantic tokens: from the relative positions and the
//! numbers of the wire to tokens with their place, text and names.

use super::info::{modifiers_known, spec_modifiers, LegendView, SemanticTokenInfo, MODIFIER_BITS};
use crate::file::parser::{get_highlighting_name, spec_highlighting_name};
use crate::file::token::{line_view, lines_view, Token, TokenView};
use crate::text::{byte_len, lemma_slice_len, slice, spec_slice, strings_view};
use vstd::prelude::*;

verus! {

/// One semantic token as it comes over the wire.
#[derive(Debug, Clone, Copy, PartialEq, Eq, Structural)]
pub struct SemanticToken {
    /// The lines between the token before and this one.
    pub delta_line: u32,
    /// The bytes from where the token before begins to where this one
    /// begins, if both are on one line; else from the line's beginning.
    pub delta_start: u32,
    /// The length of the token in bytes.
    pub length: u32,
    /// The number of the token's type in the legend.
    pub token_type: u32,
    /// The token's modifiers, one bit for each name of the legend.
    pub token_modifiers_bitset: u32,
}

/// Why a run of semantic tokens cannot be read.
#[derive(Debug, Clone, Copy, PartialEq, Eq, Structural)]
pub enum DecodeError {
    /// A token's type has no name in the legend.
    UnknownType,
    /// A modifier bit of a token has no name in the legend.
    UnknownModifier,
    /// A token lies on a line that the document does not have.
    LineOutOfRange,
    /// A token's span is no part of its line: it leaves the line, cuts a
    /// character in two, or begins further right than an offset can say.
    SpanOutOfRange,
}

/// The offset from which the next token on `line` is counted: where the
/// last token of the line begins, or the beginning of an empty line.
pub open spec fn cursor_column(line: Seq<TokenView>) -> int {
    if line.len() == 0 {
        0
    } else {
        line.last().start
    }
}

/// The highlight class of token type `idx`: the class that the table gives
/// the type's name, or no class where the table does not have the name.
pub open spec fn spec_kind(legend: LegendView, idx: int) -> Seq<char> {
    match spec_highlighting_name(legend.types[idx]) {
        Some(class) => class,
        None => Seq::empty(),
    }
}

/// `tree` after one more token of the wire has been read.
///
/// The token moves `delta_line` lines down, each of which is added to the
/// tree, and `delta_start` bytes to the right of the cursor. Its text is
/// the part of its line in the document that begins there and is `length`
/// bytes long.
pub open spec fn decode_step(
    legend: LegendView,
    content: Seq<Seq<char>>,
    tree: Seq<Seq<TokenView>>,
    tok: SemanticToken,
) -> Result<Seq<Seq<TokenView>>, DecodeError>
    recommends
        tree.len() > 0,
{
    let moved = tree + Seq::new(tok.delta_line as nat, |i: int| Seq::<TokenView>::empty());
    let line = moved.len() - 1;
    let column = cursor_column(moved.last()) + tok.delta_start;
    if tok.token_type >= legend.types.len() {
        Err(DecodeError::UnknownType)
    } else if !modifiers_known(legend.modifiers.len(), tok.token_modifiers_bitset) {
        Err(DecodeError::UnknownModifier)
    } else if column > u32::MAX {
        Err(DecodeError::SpanOutOfRange)
    } else if line >= content.len() {
        Err(DecodeError::LineOutOfRange)
    } else {
        match spec_slice(content[line], column, column + tok.length) {
            None => Err(DecodeError::SpanOutOfRange),
            Some(text) => Ok(
                moved.update(
                    line,
                    moved.last().push(
                        TokenView {
                            start: column,
                            text,
                            kind: spec_kind(legend, tok.token_type as int),
                            modifiers: Some(
                                spec_modifiers(
                                    legend.modifiers,
                                    tok.token_modifiers_bitset,
                                    MODIFIER_BITS,
                                ),
                            ),
                        },
                    ),
                ),
            ),
        }
    }
}

/// The tree of a run of semantic tokens: one empty line to begin with,
/// then each token in turn. The first token that cannot be read decides
/// the error.
pub open spec fn spec_decode(
    legend: LegendView,
    content: Seq<Seq<char>>,
    data: Seq<SemanticToken>,
) -> Result<Seq<Seq<TokenView>>, DecodeError>
    decreases data.len(),
{
    if data.len() == 0 {
        Ok(seq![Seq::empty()])
    } else {
        match spec_decode(legend, content, data.drop_last()) {
            Ok(tree) => decode_step(legend, content, tree, data.last()),
            Err(e) => Err(e),
        }
    }
}

/// A tree that was read from the wire has its first line.
pub proof fn lemma_decoded_has_lines(
    legend: LegendView,
    content: Seq<Seq<char>>,
    data: Seq<SemanticToken>,
)
    ensures
        spec_decode(legend, content, data) is Ok ==> spec_decode(legend, content, data)->Ok_0.len()
            >= 1,
    decreases data.len(),
{
    if data.len() > 0 {
        lemma_decoded_has_lines(legend, content, data.drop_last());
    }
}

/// Reads a run of semantic tokens against the text of the document and the
/// legend of the connection.
///
/// `content` holds the lines of the document. The result has a line for
/// each line that the tokens reach, the first included, and on each line
/// the tokens that lie on it, in the order of the wire.
pub fn decode(info: &SemanticTokenInfo, content: &[String], data: &[SemanticToken]) -> (tree:
    Result<Vec<Vec<Token>>, DecodeError>)
    ensures
        match (tree, spec_decode(info@, strings_view(content@), data@)) {
            (Ok(t), Ok(s)) => lines_view(t@) == s,
            (Err(e), Err(f)) => e == f,
            _ => false,
        },
        tree is Ok ==> token_count(lines_view(tree->Ok_0@)) == data@.len(),
{
    proof {
        if spec_decode(info@, strings_view(content@), data@) is Ok {
            lemma_decoded_count(info@, strings_view(content@), data@);
        }
    }
    let mut lines: Vec<Vec<Token>> = Vec::new();
    lines.push(Vec::new());
    let mut k: usize = 0;
    assert(data@.take(0) =~= Seq::<SemanticToken>::empty());
    assert(lines_view(lines@) =~~= seq![Seq::<TokenView>::empty()]);
    while k < data.len()
        invariant
            k <= data@.len(),
            lines@.len() > 0,
            spec_decode(info@, strings_view(content@), data@.take(k as int)) == Ok::<
                Seq<Seq<TokenView>>,
                DecodeError,
            >(lines_view(lines@)),
        decreases data@.len() - k,
    {
        let tok = data[k];
        let ghost tree = lines_view(lines@);
        let ghost doc = strings_view(content@);
        let ghost moved = tree + Seq::new(tok.delta_line as nat, |i: int| Seq::<TokenView>::empty());
        proof {
            assert(data@.take(k + 1).drop_last() =~= data@.take(k as int));
            assert(data@.take(k + 1).last() == tok);
            if spec_decode(info@, doc, data@.take(k + 1)) is Err {
                lemma_failure_stays(info@, doc, data@, k + 1);
            }
        }
        if tok.token_type as usize >= info.token_type_count() {
            return Err(DecodeError::UnknownType);
        }
        if !info.knows_modifiers(tok.token_modifiers_bitset) {
            return Err(DecodeError::UnknownModifier);
        }
        let cur = lines.len() - 1;
        let base: u32 = if tok.delta_line > 0 || lines[cur].len() == 0 {
            0
        } else {
            lines[cur][lines[cur].len() - 1].start
        };
        proof {
            assert(tree.last() == line_view(lines@[cur as int]@));
            assert(base == cursor_column(moved.last()));
        }
        if tok.delta_start > u32::MAX - base {
            return Err(DecodeError::SpanOutOfRange);
        }
        let column: u32 = base + tok.delta_start;
        if cur >= content.len() || tok.delta_line as usize >= content.len() - cur {
            return Err(DecodeError::LineOutOfRange);
        }
        let line: usize = cur + tok.delta_line as usize;
        let text = content[line].as_str();
        let limit = text.as_bytes().len();
        let end: u64 = column as u64 + tok.length as u64;
        if end > limit as u64 {
            return Err(DecodeError::SpanOutOfRange);
        }
        let part = match slice(text, column as usize, end as usize) {
            Some(part) => part,
            None => {
                return Err(DecodeError::SpanOutOfRange);
            },
        };
        let mut added: u32 = 0;
        assert(tree + Seq::new(0, |i: int| Seq::<TokenView>::empty()) =~= tree);
        while added < tok.delta_line
            invariant
                added <= tok.delta_line,
                lines_view(lines@) == tree + Seq::new(
                    added as nat,
                    |i: int| Seq::<TokenView>::empty(),
                ),
            decreases tok.delta_line - added,
        {
            let ghost before = lines_view(lines@);
            lines.push(Vec::new());
            added += 1;
            assert(lines_view(lines@) =~~= before.push(Seq::empty()));
            assert(before.push(Seq::empty()) =~~= tree + Seq::new(
                added as nat,
                |i: int| Seq::<TokenView>::empty(),
            ));
        }
        let name = info.get_token_type(tok.token_type);
        let kind = match get_highlighting_name(name.as_str()) {
            Some(class) => class,
            None => String::new(),
        };
        let modifiers = info.get_token_modifiers(tok.token_modifiers_bitset);
        let token = Token {
            start: column,
            token: part.to_string(),
            type_: kind,
            modifiers: Some(modifiers),
        };
        assert(lines@.len() == line + 1);
        lines[line].push(token);
        assert(lines_view(lines@) =~~= moved.update(line as int, moved.last().push(token@)));
        k += 1;
    }
    assert(data@.take(k as int) =~= data@);
    Ok(lines)
}

/// Once a token cannot be read, no token after it mends the run: the
/// error of the first `n` tokens is the error of all.
pub proof fn lemma_failure_stays(
    legend: LegendView,
    content: Seq<Seq<char>>,
    data: Seq<SemanticToken>,
    n: int,
)
    requires
        0 <= n <= data.len(),
        spec_decode(legend, content, data.take(n)) is Err,
    ensures
        spec_decode(legend, content, data) == spec_decode(legend, content, data.take(n)),
    decreases data.len() - n,
{
    if n < data.len() {
        assert(data.take(n + 1).drop_last() =~= data.take(n));
        lemma_failure_stays(legend, content, data, n + 1);
    } else {
        assert(data.take(n) =~= data);
    }
}

/// The number of tokens of a tree.
pub open spec fn token_count(tree: Seq<Seq<TokenView>>) -> nat
    decreases tree.len(),
{
    if tree.len() == 0 {
        0
    } else {
        token_count(tree.drop_last()) + tree.last().len()
    }
}

/// Whether each token of `line` begins no further left than the one
/// before it ends: the spans follow one another and do not overlap.
pub open spec fn spans_in_order(line: Seq<TokenView>) -> bool {
    forall|j: int|
        0 < j < line.len() ==> line[j - 1].start + byte_len(line[j - 1].text) <= (
        #[trigger] line[j]).start
}

/// Whether each token of the wire that stays on the line of the one
/// before it begins no further left than that one ends.
pub open spec fn orderly(data: Seq<SemanticToken>) -> bool {
    forall|i: int|
        0 < i < data.len() && (#[trigger] data[i]).delta_line == 0 ==> data[i].delta_start
            >= data[i - 1].length
}

/// Empty lines behind a tree add no token.
pub proof fn lemma_count_with_empty_lines(tree: Seq<Seq<TokenView>>, n: nat)
    ensures
        token_count(tree + Seq::new(n, |i: int| Seq::<TokenView>::empty())) == token_count(tree),
    decreases n,
{
    let more = tree + Seq::new(n, |i: int| Seq::<TokenView>::empty());
    if n == 0 {
        assert(more =~= tree);
    } else {
        let fewer = tree + Seq::new((n - 1) as nat, |i: int| Seq::<TokenView>::empty());
        assert(more.drop_last() =~= fewer);
        lemma_count_with_empty_lines(tree, (n - 1) as nat);
    }
}

/// As many tokens come out as went in: the tree of a run of semantic
/// tokens holds one token for each token of the wire.
pub proof fn lemma_decoded_count(
    legend: LegendView,
    content: Seq<Seq<char>>,
    data: Seq<SemanticToken>,
)
    requires
        spec_decode(legend, content, data) is Ok,
    ensures
        token_count(spec_decode(legend, content, data)->Ok_0) == data.len(),
    decreases data.len(),
{
    if data.len() == 0 {
        let tree = spec_decode(legend, content, data)->Ok_0;
        assert(tree.drop_last() =~= Seq::<Seq<TokenView>>::empty());
        assert(token_count(tree.drop_last()) == 0);
    } else {
        let init = data.drop_last();
        let tok = data.last();
        lemma_decoded_count(legend, content, init);
        lemma_decoded_has_lines(legend, content, init);
        let tree = spec_decode(legend, content, init)->Ok_0;
        let moved = tree + Seq::new(tok.delta_line as nat, |i: int| Seq::<TokenView>::empty());
        lemma_count_with_empty_lines(tree, tok.delta_line as nat);
        let after = spec_decode(legend, content, data)->Ok_0;
        assert(after.drop_last() =~= moved.drop_last());
        assert(after.last().len() == moved.last().len() + 1);
    }
}

/// What holds of every tree that was read from an orderly run: the spans
/// of each line are in order, and the last token of the tree, which is the
/// last one of the run, is as long as the wire said.
pub open spec fn decoded_in_order(tree: Seq<Seq<TokenView>>, data: Seq<SemanticToken>) -> bool {
    &&& tree.len() >= 1
    &&& forall|i: int| 0 <= i < tree.len() ==> spans_in_order(#[trigger] tree[i])
    &&& data.len() > 0 ==> tree.last().len() > 0 && byte_len(tree.last().last().text)
        == data.last().length
}

/// The tokens of an orderly run come out in order: on each line of the
/// tree they follow one another from left to right, and none overlaps
/// the next.
pub proof fn lemma_decoded_in_order(
    legend: LegendView,
    content: Seq<Seq<char>>,
    data: Seq<SemanticToken>,
)
    requires
        spec_decode(legend, content, data) is Ok,
        orderly(data),
    ensures
        decoded_in_order(spec_decode(legend, content, data)->Ok_0, data),
    decreases data.len(),
{
    let after = spec_decode(legend, content, data)->Ok_0;
    if data.len() == 0 {
        assert forall|i: int| 0 <= i < after.len() implies spans_in_order(#[trigger] after[i]) by {}
    } else {
        let init = data.drop_last();
        let tok = data.last();
        assert forall|i: int| 0 < i < init.len() && (#[trigger] init[i]).delta_line
            == 0 implies init[i].delta_start >= init[i - 1].length by {
            assert(init[i] == data[i]);
            assert(init[i - 1] == data[i - 1]);
        }
        lemma_decoded_in_order(legend, content, init);
        let tree = spec_decode(legend, content, init)->Ok_0;
        let moved = tree + Seq::new(tok.delta_line as nat, |i: int| Seq::<TokenView>::empty());
        let line = moved.len() - 1;
        let column = cursor_column(moved.last()) + tok.delta_start;
        lemma_slice_len(content[line], column, column + tok.length);
        let grown = after[line];
        assert(grown == moved.last().push(grown.last()));
        assert forall|j: int| 0 < j < grown.len() implies grown[j - 1].start + byte_len(
            grown[j - 1].text,
        ) <= (#[trigger] grown[j]).start by {
            if j < grown.len() - 1 {
                assert(grown[j] == moved.last()[j]);
                assert(grown[j - 1] == moved.last()[j - 1]);
                if tok.delta_line == 0 {
                    assert(moved.last() == tree.last());
                    assert(spans_in_order(tree.last()));
                }
            } else {
                assert(tok.delta_line == 0);
                assert(moved.last() == tree.last());
                assert(grown[j - 1] == tree.last().last());
                assert(init.len() > 0);
                assert(init.last() == data[data.len() - 2]);
                assert(tok == data[data.len() - 1]);
            }
        }
        assert forall|i: int| 0 <= i < after.len() implies spans_in_order(#[trigger] after[i]) by {
            if i < line {
                assert(after[i] == moved[i]);
                if i < tree.len() {
                    assert(moved[i] == tree[i]);
                } else {
                    assert(moved[i] =~= Seq::<TokenView>::empty());
                }
            }
        }
    }
}

/// Whether every token of `tree` has a text of at least one byte.
pub open spec fn all_nonempty(tree: Seq<Seq<TokenView>>) -> bool {
    forall|i: int, j: int|
        0 <= i < tree.len() && 0 <= j < tree[i].len() ==> byte_len((#[trigger] tree[i][j]).text)
            > 0
}

/// Whether each token of `line` begins further right than the one before
/// it.
pub open spec fn strictly_rising(line: Seq<TokenView>) -> bool {
    forall|j: int| 0 < j < line.len() ==> line[j - 1].start < (#[trigger] line[j]).start
}

/// Tokens that the wire gives a length come out with a text.
pub proof fn lemma_decoded_nonempty(
    legend: LegendView,
    content: Seq<Seq<char>>,
    data: Seq<SemanticToken>,
)
    requires
        spec_decode(legend, content, data) is Ok,
        forall|i: int| 0 <= i < data.len() ==> (#[trigger] data[i]).length > 0,
    ensures
        all_nonempty(spec_decode(legend, content, data)->Ok_0),
    decreases data.len(),
{
    let after = spec_decode(legend, content, data)->Ok_0;
    if data.len() > 0 {
        let init = data.drop_last();
        let tok = data.last();
        assert forall|i: int| 0 <= i < init.len() implies (#[trigger] init[i]).length > 0 by {
            assert(init[i] == data[i]);
        }
        lemma_decoded_nonempty(legend, content, init);
        lemma_decoded_has_lines(legend, content, init);
        let tree = spec_decode(legend, content, init)->Ok_0;
        let moved = tree + Seq::new(tok.delta_line as nat, |i: int| Seq::<TokenView>::empty());
        let line = moved.len() - 1;
        let column = cursor_column(moved.last()) + tok.delta_start;
        lemma_slice_len(content[line], column, column + tok.length);
        assert(tok == data[data.len() - 1]);
        assert forall|i: int, j: int| 0 <= i < after.len() && 0 <= j < after[i].len() implies byte_len(
            (#[trigger] after[i][j]).text,
        ) > 0 by {
            if i < line {
                assert(after[i] == moved[i]);
                if i < tree.len() {
                    assert(moved[i] == tree[i]);
                    assert(byte_len(tree[i][j].text) > 0);
                }
            } else if j < moved.last().len() {
                assert(after[i][j] == moved.last()[j]);
                assert(tok.delta_line == 0);
                assert(moved.last() == tree[tree.len() - 1]);
                assert(byte_len(tree[tree.len() - 1][j].text) > 0);
            }
        }
    }
}

/// The tokens of an orderly run, each with a length, come out in strictly
/// rising order on every line of the tree.
pub proof fn lemma_decoded_strictly_rising(
    legend: LegendView,
    content: Seq<Seq<char>>,
    data: Seq<SemanticToken>,
)
    requires
        spec_decode(legend, content, data) is Ok,
        orderly(data),
        forall|i: int| 0 <= i < data.len() ==> (#[trigger] data[i]).length > 0,
    ensures
        forall|i: int|
            0 <= i < spec_decode(legend, content, data)->Ok_0.len() ==> strictly_rising(
                #[trigger] spec_decode(legend, content, data)->Ok_0[i],
            ),
{
    let tree = spec_decode(legend, content, data)->Ok_0;
    lemma_decoded_in_order(legend, content, data);
    lemma_decoded_nonempty(legend, content, data);
    assert forall|i: int| 0 <= i < tree.len() implies strictly_rising(#[trigger] tree[i]) by {
        assert(spans_in_order(tree[i]));
        assert forall|j: int| 0 < j < tree[i].len() implies tree[i][j - 1].start < (
        #[trigger] tree[i][j]).start by {
            assert(byte_len(tree[i][j - 1].text) > 0);
        }
    }
}

/// Whether each token of the wire that stays on the line of the one
/// before it begins further right than that one begins.
pub open spec fn advancing(data: Seq<SemanticToken>) -> bool {
    forall|i: int| 0 < i < data.len() && (#[trigger] data[i]).delta_line == 0 ==> data[i].delta_start > 0
}

/// The tokens of a run that advances come out in strictly rising order on
/// every line of the tree, whatever their lengths.
pub proof fn lemma_decoded_advancing(
    legend: LegendView,
    content: Seq<Seq<char>>,
    data: Seq<SemanticToken>,
)
    requires
        spec_decode(legend, content, data) is Ok,
        advancing(data),
    ensures
        spec_decode(legend, content, data)->Ok_0.len() >= 1,
        forall|i: int|
            0 <= i < spec_decode(legend, content, data)->Ok_0.len() ==> strictly_rising(
                #[trigger] spec_decode(legend, content, data)->Ok_0[i],
            ),
        data.len() == 0 ==> spec_decode(legend, content, data)->Ok_0.last().len() == 0,
    decreases data.len(),
{
    let after = spec_decode(legend, content, data)->Ok_0;
    if data.len() == 0 {
        assert forall|i: int| 0 <= i < after.len() implies strictly_rising(#[trigger] after[i]) by {}
    } else {
        let init = data.drop_last();
        let tok = data.last();
        assert forall|i: int| 0 < i < init.len() && (#[trigger] init[i]).delta_line
            == 0 implies init[i].delta_start > 0 by {
            assert(init[i] == data[i]);
        }
        lemma_decoded_advancing(legend, content, init);
        let tree = spec_decode(legend, content, init)->Ok_0;
        let moved = tree + Seq::new(tok.delta_line as nat, |i: int| Seq::<TokenView>::empty());
        let line = moved.len() - 1;
        let grown = after[line];
        assert(grown == moved.last().push(grown.last()));
        assert(tok == data[data.len() - 1]);
        assert forall|j: int| 0 < j < grown.len() implies grown[j - 1].start < (
        #[trigger] grown[j]).start by {
            if j < grown.len() - 1 {
                assert(grown[j] == moved.last()[j]);
                assert(grown[j - 1] == moved.last()[j - 1]);
                if tok.delta_line == 0 {
                    assert(moved.last() == tree.last());
                    assert(strictly_rising(tree.last()));
                }
            } else {
                assert(tok.delta_line == 0);
                assert(moved.last() == tree.last());
                assert(grown[j - 1] == tree.last().last());
                assert(init.len() > 0);
            }
        }
        assert forall|i: int| 0 <= i < after.len() implies strictly_rising(#[trigger] after[i]) by {
            if i < line {
                assert(after[i] == moved[i]);
                if i < tree.len() {
                    assert(moved[i] == tree[i]);
                } else {
                    assert(moved[i] =~= Seq::<TokenView>::empty());
                }
            }
        }
    }
}

} // verus!
