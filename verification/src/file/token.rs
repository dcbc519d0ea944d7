//! The token tree of a document: its lines, each a run of tokens, and the
//! two ways it is built up: from the highlighter's raw tokens, and by
//! laying a server's semantic tokens over it.

use crate::text::{byte_len, push_char, str_eq, strings_view};
use vstd::prelude::*;
use vstd::std_specs::iter::IteratorSpec;

verus! {

/// One token of a line.
#[derive(Debug, Clone, PartialEq, Eq, Hash, Default)]
pub struct Token {
    /// The byte offset in its line at which the token begins.
    pub start: u32,
    /// The token's text.
    pub token: String,
    /// The name of the highlight class, empty where none applies.
    pub type_: String,
    /// The names of the modifiers, where a server gave any.
    pub modifiers: Option<Vec<String>>,
}

/// What a token says, with its texts as sequences of characters.
pub struct TokenView {
    pub start: int,
    pub text: Seq<char>,
    pub kind: Seq<char>,
    pub modifiers: Option<Seq<Seq<char>>>,
}

impl View for Token {
    type V = TokenView;

    open spec fn view(&self) -> TokenView {
        TokenView {
            start: self.start as int,
            text: self.token@,
            kind: self.type_@,
            modifiers: match self.modifiers {
                Some(names) => Some(strings_view(names@)),
                None => None,
            },
        }
    }
}

/// The tokens of a line, each as what it says.
pub open spec fn line_view(line: Seq<Token>) -> Seq<TokenView> {
    line.map_values(|t: Token| t@)
}

/// The lines of a tree, each as what its tokens say.
pub open spec fn lines_view(lines: Seq<Vec<Token>>) -> Seq<Seq<TokenView>> {
    lines.map_values(|line: Vec<Token>| line_view(line@))
}

/// The tokens of a document, line by line.
#[derive(Debug, Clone, PartialEq, Eq, Hash, Default)]
pub struct TokenTree {
    pub tokens: Vec<Vec<Token>>,
}

impl View for TokenTree {
    type V = Seq<Seq<TokenView>>;

    open spec fn view(&self) -> Seq<Seq<TokenView>> {
        lines_view(self.tokens@)
    }
}

impl TokenTree {
    /// A tree without lines.
    pub fn new() -> (tree: Self)
        ensures
            tree@ == Seq::<Seq<TokenView>>::empty(),
    {
        TokenTree { tokens: Vec::new() }
    }

    /// Replaces the lines of the tree by `tokens`.
    pub fn set_tokens(&mut self, tokens: Vec<Vec<Token>>)
        ensures
            final(self).tokens == tokens,
            final(self)@ == lines_view(tokens@),
    {
        self.tokens = tokens;
    }
}

/// The first token of `sem` that begins at `start` and reads `text`.
pub open spec fn spec_find(sem: Seq<TokenView>, start: int, text: Seq<char>) -> Option<TokenView>
    decreases sem.len(),
{
    if sem.len() == 0 {
        None
    } else if sem[0].start == start && sem[0].text == text {
        Some(sem[0])
    } else {
        spec_find(sem.drop_first(), start, text)
    }
}

/// `tok` with the class and the modifiers of its semantic counterpart in
/// `sem`, where it has one; `tok` itself where it has none.
pub open spec fn overlay(tok: TokenView, sem: Seq<TokenView>) -> TokenView {
    match spec_find(sem, tok.start, tok.text) {
        Some(found) => TokenView { kind: found.kind, modifiers: found.modifiers, ..tok },
        None => tok,
    }
}

/// Whether `text` is one of the four opening brackets.
pub open spec fn is_opener(text: Seq<char>) -> bool {
    text == "{"@ || text == "["@ || text == "("@ || text == "<"@
}

/// The opening bracket that the closing bracket `text` answers.
pub open spec fn opener_for(text: Seq<char>) -> Option<Seq<char>> {
    if text == "}"@ {
        Some("{"@)
    } else if text == "]"@ {
        Some("["@)
    } else if text == ")"@ {
        Some("("@)
    } else if text == ">"@ {
        Some("<"@)
    } else {
        None
    }
}

/// The name of the class of a bracket that has `depth` open brackets
/// around it: the depth counts in a cycle of three.
pub open spec fn spec_bracket_class(depth: nat) -> Seq<char> {
    if depth % 3 == 0 {
        "punctuation.bracket_0"@
    } else if depth % 3 == 1 {
        "punctuation.bracket_1"@
    } else {
        "punctuation.bracket_2"@
    }
}

/// What is left of the open brackets below the innermost `inverse`;
/// `None` where no `inverse` is open.
pub open spec fn unwind(open: Seq<Seq<char>>, inverse: Seq<char>) -> Option<Seq<Seq<char>>>
    decreases open.len(),
{
    if open.len() == 0 {
        None
    } else if open.last() == inverse {
        Some(open.drop_last())
    } else {
        unwind(open.drop_last(), inverse)
    }
}

/// The open brackets and the token after `tok` has been read with `open`
/// brackets open.
///
/// An opening bracket is pushed, and takes the class of the depth at which
/// it stands. A closing bracket removes the open brackets down to and with
/// its counterpart, and takes the counterpart's class; one without a
/// counterpart removes them all and stays as it is. Any other token leaves
/// both unchanged.
pub open spec fn bracket_step(open: Seq<Seq<char>>, tok: TokenView) -> (
    Seq<Seq<char>>,
    TokenView,
) {
    if is_opener(tok.text) {
        (open.push(tok.text), TokenView { kind: spec_bracket_class(open.len()), ..tok })
    } else {
        match opener_for(tok.text) {
            Some(inverse) => match unwind(open, inverse) {
                Some(rest) => (rest, TokenView { kind: spec_bracket_class(rest.len()), ..tok }),
                None => (Seq::empty(), tok),
            },
            None => (open, tok),
        }
    }
}

/// A line merged: each token overlaid with the semantic line `sem`, then
/// read as a bracket, from left to right, beginning with `open` brackets
/// open. The result is the brackets open after the line, and the line.
pub open spec fn spec_merge_line(
    open: Seq<Seq<char>>,
    line: Seq<TokenView>,
    sem: Seq<TokenView>,
) -> (Seq<Seq<char>>, Seq<TokenView>)
    decreases line.len(),
{
    if line.len() == 0 {
        (open, line)
    } else {
        let (before, head) = spec_merge_line(open, line.drop_last(), sem);
        let (after, last) = bracket_step(before, overlay(line.last(), sem));
        (after, head.push(last))
    }
}

/// Line `i` of a semantic tree, empty where the tree has no such line.
pub open spec fn sem_line(sem: Seq<Seq<TokenView>>, i: int) -> Seq<TokenView> {
    if 0 <= i < sem.len() {
        sem[i]
    } else {
        Seq::empty()
    }
}

/// The lines of `tree` merged with the lines of `sem` of the same number,
/// from top to bottom, with one run of open brackets through all of them.
pub open spec fn spec_merge_lines(tree: Seq<Seq<TokenView>>, sem: Seq<Seq<TokenView>>) -> (
    Seq<Seq<char>>,
    Seq<Seq<TokenView>>,
)
    decreases tree.len(),
{
    if tree.len() == 0 {
        (Seq::empty(), tree)
    } else {
        let (before, head) = spec_merge_lines(tree.drop_last(), sem);
        let (after, last) = spec_merge_line(before, tree.last(), sem_line(sem, tree.len() - 1));
        (after, head.push(last))
    }
}

/// The lexical tree `tree` with the semantic tree `sem` laid over it and
/// its brackets classed by depth.
pub open spec fn spec_merge(tree: Seq<Seq<TokenView>>, sem: Seq<Seq<TokenView>>) -> Seq<
    Seq<TokenView>,
> {
    spec_merge_lines(tree, sem).1
}

/// The name of the class of a bracket at `depth`.
pub fn bracket_class(depth: usize) -> (name: String)
    ensures
        name@ == spec_bracket_class(depth as nat),
{
    if depth % 3 == 0 {
        "punctuation.bracket_0".to_string()
    } else if depth % 3 == 1 {
        "punctuation.bracket_1".to_string()
    } else {
        "punctuation.bracket_2".to_string()
    }
}

/// A copy of a token's modifiers.
pub fn clone_modifiers(modifiers: &Option<Vec<String>>) -> (copy: Option<Vec<String>>)
    ensures
        match (copy, *modifiers) {
            (Some(c), Some(m)) => strings_view(c@) == strings_view(m@),
            (None, None) => true,
            _ => false,
        },
{
    match modifiers {
        Some(names) => {
            let copy = names.clone();
            assert(strings_view(copy@) =~= strings_view(names@));
            Some(copy)
        },
        None => None,
    }
}

/// The place in `sem` of the first token that begins at `start` and reads
/// `text`.
pub fn find_token(sem: &Vec<Token>, start: u32, text: &str) -> (place: Option<usize>)
    ensures
        match place {
            Some(k) => k < sem@.len() && spec_find(line_view(sem@), start as int, text@) == Some(
                sem@[k as int]@,
            ),
            None => spec_find(line_view(sem@), start as int, text@) is None,
        },
{
    let mut k: usize = 0;
    assert(line_view(sem@).skip(0) =~= line_view(sem@));
    while k < sem.len()
        invariant
            k <= sem@.len(),
            spec_find(line_view(sem@), start as int, text@) == spec_find(
                line_view(sem@).skip(k as int),
                start as int,
                text@,
            ),
        decreases sem@.len() - k,
    {
        let ghost rest = line_view(sem@).skip(k as int);
        assert(rest[0] == sem@[k as int]@);
        if sem[k].start == start && str_eq(sem[k].token.as_str(), text) {
            return Some(k);
        }
        assert(rest.drop_first() == line_view(sem@).skip(k + 1));
        k += 1;
    }
    assert(line_view(sem@).skip(k as int).len() == 0);
    None
}

/// Removes the open brackets down to and with the innermost
/// `inverse_token`, and gives `token` the class of that bracket. Where no
/// `inverse_token` is open, every open bracket is removed and `token` stays
/// as it is.
pub fn remove_other_bracket(open: &mut Vec<String>, inverse_token: &str, token: &mut Token)
    ensures
        match unwind(strings_view(old(open)@), inverse_token@) {
            Some(rest) => strings_view(final(open)@) == rest && final(token)@ == (TokenView {
                kind: spec_bracket_class(rest.len()),
                ..old(token)@
            }),
            None => final(open)@.len() == 0 && final(token)@ == old(token)@,
        },
{
    loop
        invariant_except_break
            unwind(strings_view(old(open)@), inverse_token@) == unwind(
                strings_view(open@),
                inverse_token@,
            ),
            *token == *old(token),
        ensures
            match unwind(strings_view(old(open)@), inverse_token@) {
                Some(rest) => strings_view(open@) == rest && token@ == (TokenView {
                    kind: spec_bracket_class(rest.len()),
                    ..old(token)@
                }),
                None => open@.len() == 0 && token@ == old(token)@,
            },
        decreases open@.len(),
    {
        let ghost before = strings_view(open@);
        match open.pop() {
            Some(bracket) => {
                assert(strings_view(open@) =~= before.drop_last());
                assert(before.last() == bracket@);
                if str_eq(bracket.as_str(), inverse_token) {
                    token.type_ = bracket_class(open.len());
                    break ;
                }
            },
            None => {
                assert(before.len() == 0);
                break ;
            },
        }
    }
}

/// Lays the semantic line `sem` over `token`, then reads the token as a
/// bracket with `open` brackets open.
fn merge_token(token: &mut Token, sem: &Vec<Token>, open: &mut Vec<String>)
    ensures
        (strings_view(final(open)@), final(token)@) == bracket_step(
            strings_view(old(open)@),
            overlay(old(token)@, line_view(sem@)),
        ),
{
    match find_token(sem, token.start, token.token.as_str()) {
        Some(k) => {
            token.type_ = sem[k].type_.clone();
            token.modifiers = clone_modifiers(&sem[k].modifiers);
        },
        None => {},
    }
    assert(token@ == overlay(old(token)@, line_view(sem@)));
    let ghost before = strings_view(open@);
    if str_eq(token.token.as_str(), "{") || str_eq(token.token.as_str(), "[") || str_eq(
        token.token.as_str(),
        "(",
    ) || str_eq(token.token.as_str(), "<") {
        let depth = open.len();
        open.push(token.token.clone());
        assert(strings_view(open@) =~= before.push(token.token@));
        token.type_ = bracket_class(depth);
    } else if str_eq(token.token.as_str(), "}") {
        remove_other_bracket(open, "{", token);
    } else if str_eq(token.token.as_str(), "]") {
        remove_other_bracket(open, "[", token);
    } else if str_eq(token.token.as_str(), ")") {
        remove_other_bracket(open, "(", token);
    } else if str_eq(token.token.as_str(), ">") {
        remove_other_bracket(open, "<", token);
    }
    assert(open@.len() == 0 ==> strings_view(open@) =~= Seq::<Seq<char>>::empty());
}

/// Merges one line with its semantic counterpart `sem`, beginning with
/// `open` brackets open.
fn merge_line(line: &mut Vec<Token>, sem: &Vec<Token>, open: &mut Vec<String>)
    ensures
        (strings_view(final(open)@), line_view(final(line)@)) == spec_merge_line(
            strings_view(old(open)@),
            line_view(old(line)@),
            line_view(sem@),
        ),
{
    let n = line.len();
    let mut j: usize = 0;
    let ghost first = line_view(line@);
    assert(first.take(0) =~= Seq::<TokenView>::empty());
    while j < n
        invariant
            first == line_view(old(line)@),
            n == line@.len(),
            n == first.len(),
            j <= n,
            (strings_view(open@), line_view(line@).take(j as int)) == spec_merge_line(
                strings_view(old(open)@),
                first.take(j as int),
                line_view(sem@),
            ),
            forall|k: int| j <= k < n ==> line@[k]@ == first[k],
        decreases n - j,
    {
        let ghost done = line_view(line@).take(j as int);
        merge_token(&mut line[j], sem, open);
        proof {
            assert(first.take(j + 1).drop_last() =~= first.take(j as int));
            assert(first.take(j + 1).last() == first[j as int]);
            assert(line_view(line@).take(j + 1) =~= done.push(line@[j as int]@));
        }
        j += 1;
    }
    assert(first.take(n as int) =~= first);
    assert(line_view(line@).take(n as int) =~= line_view(line@));
}

impl TokenTree {
    /// Lays the semantic tree `other` over this tree, and classes the
    /// brackets of the result by their depth.
    ///
    /// A token takes the class and the modifiers of the first token of the
    /// same line of `other` that begins where it begins and reads what it
    /// reads. Brackets are counted through the whole tree, from its first
    /// token to its last.
    pub fn merge(&mut self, other: TokenTree)
        ensures
            final(self)@ == spec_merge(old(self)@, other@),
            final(self)@.len() == old(self)@.len(),
            forall|i: int|
                0 <= i < old(self)@.len() ==> same_spans(final(self)@[i], #[trigger] old(self)@[i]),
            partitioned(old(self)@) ==> partitioned(final(self)@),
    {
        proof {
            lemma_merge_tokens(self@, other@);
            if partitioned(self@) {
                lemma_merge_keeps_partition(self@, other@);
            }
        }
        let mut open: Vec<String> = Vec::new();
        let default: Vec<Token> = Vec::new();
        let n = self.tokens.len();
        let mut i: usize = 0;
        let ghost first = self@;
        assert(first.take(0) =~= Seq::<Seq<TokenView>>::empty());
        assert(strings_view(open@) =~= Seq::<Seq<char>>::empty());
        while i < n
            invariant
                first == old(self)@,
                n == self.tokens@.len(),
                n == first.len(),
                i <= n,
                default@.len() == 0,
                (strings_view(open@), self@.take(i as int)) == spec_merge_lines(
                    first.take(i as int),
                    other@,
                ),
                forall|k: int| i <= k < n ==> line_view(self.tokens@[k]@) == first[k],
            decreases n - i,
        {
            let ghost done = self@.take(i as int);
            let sem = if i < other.tokens.len() {
                &other.tokens[i]
            } else {
                &default
            };
            assert(line_view(sem@) =~= sem_line(other@, i as int));
            merge_line(&mut self.tokens[i], sem, &mut open);
            proof {
                assert(first.take(i + 1).drop_last() =~= first.take(i as int));
                assert(first.take(i + 1).last() == first[i as int]);
                assert(self@.take(i + 1) =~= done.push(line_view(self.tokens@[i as int]@)));
            }
            i += 1;
        }
        assert(first.take(n as int) =~= first);
        assert(self@.take(n as int) =~= self@);
    }
}

/// The pieces into which the line feeds of `text` cut it, each without its
/// carriage returns. A text without a line feed is one piece.
pub open spec fn spec_pieces(text: Seq<char>) -> Seq<Seq<char>>
    decreases text.len(),
{
    if text.len() == 0 {
        seq![Seq::empty()]
    } else {
        let head = spec_pieces(text.drop_last());
        let c = text.last();
        if c == '\n' {
            head.push(Seq::empty())
        } else if c == '\r' {
            head
        } else {
            head.update(head.len() - 1, head.last().push(c))
        }
    }
}

/// The byte offset at which a line ends: where its last token ends.
pub open spec fn line_end(line: Seq<TokenView>) -> int {
    if line.len() == 0 {
        0
    } else {
        line.last().start + byte_len(line.last().text)
    }
}

/// `tree` with one more token at the end of its last line, which reads
/// `piece` and begins where the line ended.
pub open spec fn push_piece(
    tree: Seq<Seq<TokenView>>,
    piece: Seq<char>,
    kind: Seq<char>,
    modifiers: Option<Seq<Seq<char>>>,
) -> Seq<Seq<TokenView>>
    recommends
        tree.len() > 0,
{
    let line = tree.last();
    tree.update(
        tree.len() - 1,
        line.push(TokenView { start: line_end(line), text: piece, kind, modifiers }),
    )
}

/// `tree` with the pieces of one raw token: the first goes to the end of
/// the last line, each further one to a new line of its own.
pub open spec fn push_pieces(
    tree: Seq<Seq<TokenView>>,
    pieces: Seq<Seq<char>>,
    kind: Seq<char>,
    modifiers: Option<Seq<Seq<char>>>,
) -> Seq<Seq<TokenView>>
    decreases pieces.len(),
{
    if pieces.len() == 0 {
        tree
    } else if pieces.len() == 1 {
        push_piece(tree, pieces[0], kind, modifiers)
    } else {
        push_piece(
            push_pieces(tree, pieces.drop_last(), kind, modifiers).push(Seq::empty()),
            pieces.last(),
            kind,
            modifiers,
        )
    }
}

/// The tree of a run of raw tokens, whose texts may span lines: one empty
/// line to begin with, then the pieces of each token in turn. Where the
/// raw tokens began is not read: each token of the tree begins where the
/// one before it on its line ends.
pub open spec fn spec_raw_tree(raw: Seq<TokenView>) -> Seq<Seq<TokenView>>
    decreases raw.len(),
{
    if raw.len() == 0 {
        seq![Seq::empty()]
    } else {
        let token = raw.last();
        push_pieces(
            spec_raw_tree(raw.drop_last()),
            spec_pieces(token.text),
            token.kind,
            token.modifiers,
        )
    }
}

/// Whether every token of `tree` begins at an offset that a `u32` holds.
pub open spec fn starts_fit(tree: Seq<Seq<TokenView>>) -> bool {
    forall|i: int, j: int|
        0 <= i < tree.len() && 0 <= j < tree[i].len() ==> (#[trigger] tree[i][j]).start
            <= u32::MAX
}

/// Whether line `a` is the beginning of line `b`.
pub open spec fn begins_line(a: Seq<TokenView>, b: Seq<TokenView>) -> bool {
    a.len() <= b.len() && forall|j: int| 0 <= j < a.len() ==> #[trigger] a[j] == b[j]
}

/// Whether tree `b` can have grown out of tree `a`: it has the lines of
/// `a`, each with the tokens that it has in `a` and then maybe more, and
/// maybe more lines.
pub open spec fn grows(a: Seq<Seq<TokenView>>, b: Seq<Seq<TokenView>>) -> bool {
    a.len() <= b.len() && forall|i: int| 0 <= i < a.len() ==> begins_line(#[trigger] a[i], b[i])
}

/// Growing goes on: what has grown out of a tree that has grown out of
/// another has grown out of that one.
pub proof fn lemma_grows_on(
    a: Seq<Seq<TokenView>>,
    b: Seq<Seq<TokenView>>,
    c: Seq<Seq<TokenView>>,
)
    requires
        grows(a, b),
        grows(b, c),
    ensures
        grows(a, c),
{
    assert forall|i: int| 0 <= i < a.len() implies begins_line(#[trigger] a[i], c[i]) by {
        assert(begins_line(a[i], b[i]));
        assert(begins_line(b[i], c[i]));
        assert forall|j: int| 0 <= j < a[i].len() implies #[trigger] a[i][j] == c[i][j] by {
            assert(a[i][j] == b[i][j]);
            assert(b[i][j] == c[i][j]);
        }
    }
}

/// A tree grows by a token at the end of its last line.
pub proof fn lemma_push_piece_grows(
    tree: Seq<Seq<TokenView>>,
    piece: Seq<char>,
    kind: Seq<char>,
    modifiers: Option<Seq<Seq<char>>>,
)
    requires
        tree.len() >= 1,
    ensures
        push_piece(tree, piece, kind, modifiers).len() == tree.len(),
        grows(tree, push_piece(tree, piece, kind, modifiers)),
{
    let after = push_piece(tree, piece, kind, modifiers);
    assert forall|i: int| 0 <= i < tree.len() implies begins_line(#[trigger] tree[i], after[i]) by {
        if i < tree.len() - 1 {
            assert(after[i] == tree[i]);
        }
    }
}

/// A tree grows by each piece of a raw token: with the first `k` pieces
/// it is the beginning of what it is with all of them.
pub proof fn lemma_push_pieces_grows(
    tree: Seq<Seq<TokenView>>,
    pieces: Seq<Seq<char>>,
    kind: Seq<char>,
    modifiers: Option<Seq<Seq<char>>>,
    k: int,
)
    requires
        tree.len() >= 1,
        0 <= k <= pieces.len(),
    ensures
        push_pieces(tree, pieces.take(k), kind, modifiers).len() >= 1,
        grows(
            push_pieces(tree, pieces.take(k), kind, modifiers),
            push_pieces(tree, pieces, kind, modifiers),
        ),
    decreases pieces.len() - k,
{
    let now = push_pieces(tree, pieces.take(k), kind, modifiers);
    if k == 0 {
        assert(pieces.take(0) =~= Seq::<Seq<char>>::empty());
    } else {
        assert(pieces.take(k).drop_last() =~= pieces.take(k - 1));
        lemma_push_pieces_len(tree, pieces.take(k), kind, modifiers);
    }
    if k == pieces.len() {
        assert(pieces.take(k) =~= pieces);
        assert forall|i: int| 0 <= i < now.len() implies begins_line(#[trigger] now[i], now[i]) by {}
    } else {
        let next = push_pieces(tree, pieces.take(k + 1), kind, modifiers);
        assert(pieces.take(k + 1).drop_last() =~= pieces.take(k));
        assert(pieces.take(k + 1).last() == pieces[k]);
        if k == 0 {
            assert(pieces.take(1)[0] == pieces[0]);
            lemma_push_piece_grows(tree, pieces[0], kind, modifiers);
        } else {
            let with_line = now.push(Seq::empty());
            assert forall|i: int| 0 <= i < now.len() implies begins_line(
                #[trigger] now[i],
                with_line[i],
            ) by {
                assert(with_line[i] == now[i]);
            }
            lemma_push_piece_grows(with_line, pieces[k], kind, modifiers);
            lemma_grows_on(now, with_line, next);
        }
        lemma_push_pieces_grows(tree, pieces, kind, modifiers, k + 1);
        lemma_grows_on(now, next, push_pieces(tree, pieces, kind, modifiers));
    }
}

/// The pieces of a raw token leave a tree with its first line.
pub proof fn lemma_push_pieces_len(
    tree: Seq<Seq<TokenView>>,
    pieces: Seq<Seq<char>>,
    kind: Seq<char>,
    modifiers: Option<Seq<Seq<char>>>,
)
    requires
        tree.len() >= 1,
    ensures
        push_pieces(tree, pieces, kind, modifiers).len() >= 1,
    decreases pieces.len(),
{
    if pieces.len() >= 2 {
        lemma_push_pieces_len(tree, pieces.drop_last(), kind, modifiers);
    }
}

/// The tree of a run of raw tokens grows with the run: the tree of the
/// first `t` tokens is the beginning of the tree of all.
pub proof fn lemma_raw_tree_grows(raw: Seq<TokenView>, t: int)
    requires
        0 <= t <= raw.len(),
    ensures
        spec_raw_tree(raw.take(t)).len() >= 1,
        grows(spec_raw_tree(raw.take(t)), spec_raw_tree(raw)),
    decreases raw.len() - t,
{
    let now = spec_raw_tree(raw.take(t));
    lemma_raw_tree_partitioned(raw.take(t));
    if t == raw.len() {
        assert(raw.take(t) =~= raw);
        assert forall|i: int| 0 <= i < now.len() implies begins_line(#[trigger] now[i], now[i]) by {}
    } else {
        let next = spec_raw_tree(raw.take(t + 1));
        assert(raw.take(t + 1).drop_last() =~= raw.take(t));
        assert(raw.take(t + 1).last() == raw[t]);
        lemma_push_pieces_grows(now, spec_pieces(raw[t].text), raw[t].kind, raw[t].modifiers, 0);
        assert(spec_pieces(raw[t].text).take(0) =~= Seq::<Seq<char>>::empty());
        lemma_raw_tree_grows(raw, t + 1);
        lemma_grows_on(now, next, spec_raw_tree(raw));
    }
}

/// Where the tokens of a tree begin within reach of an offset, so do the
/// tokens of every tree that it has grown out of.
pub proof fn lemma_grown_keeps_tokens(a: Seq<Seq<TokenView>>, b: Seq<Seq<TokenView>>)
    requires
        grows(a, b),
        starts_fit(b),
    ensures
        starts_fit(a),
{
    assert forall|i: int, j: int| 0 <= i < a.len() && 0 <= j < a[i].len() implies (
    #[trigger] a[i][j]).start <= u32::MAX by {
        assert(begins_line(a[i], b[i]));
        assert(a[i][j] == b[i][j]);
        assert(b[i][j].start <= u32::MAX);
    }
}

/// The pieces of `text`.
pub fn pieces(text: &str) -> (list: Vec<String>)
    ensures
        strings_view(list@) == spec_pieces(text@),
{
    let mut done: Vec<String> = Vec::new();
    let mut current = String::new();
    let mut it = text.chars();
    let ghost mut k: int = 0;
    assert(text@.take(0) =~= Seq::<char>::empty());
    assert(strings_view(done@).push(current@) =~= seq![Seq::<char>::empty()]);
    loop
        invariant
            0 <= k <= text@.len(),
            it.obeys_prophetic_iter_laws(),
            it.remaining() == text@.subrange(k, text@.len() as int),
            strings_view(done@).push(current@) == spec_pieces(text@.take(k)),
        ensures
            k == text@.len(),
        decreases text@.len() - k,
    {
        let ghost head = spec_pieces(text@.take(k));
        let ghost before = strings_view(done@);
        match it.next() {
            Some(c) => {
                proof {
                    assert(text@.take(k + 1).drop_last() =~= text@.take(k));
                    assert(text@.take(k + 1).last() == c);
                }
                if c == '\n' {
                    done.push(current);
                    current = String::new();
                    assert(strings_view(done@).push(current@) =~= head.push(Seq::empty()));
                } else if c == '\r' {
                } else {
                    push_char(&mut current, c);
                    assert(strings_view(done@).push(current@) =~= head.update(
                        head.len() - 1,
                        head.last().push(c),
                    ));
                }
                proof {
                    k = k + 1;
                }
            },
            None => {
                break ;
            },
        }
    }
    let ghost before = strings_view(done@);
    done.push(current);
    assert(strings_view(done@) =~= before.push(current@));
    assert(text@.take(k) =~= text@);
    done
}

/// The byte offset at which `line` ends; `None` where a `u32` does not
/// hold it.
fn end_of_line(line: &Vec<Token>) -> (end: Option<u32>)
    ensures
        match end {
            Some(e) => e == line_end(line_view(line@)),
            None => line_end(line_view(line@)) > u32::MAX,
        },
{
    if line.len() == 0 {
        Some(0)
    } else {
        let last = &line[line.len() - 1];
        assert(line_view(line@).last() == last@);
        let len = last.token.as_str().as_bytes().len();
        if len > (u32::MAX - last.start) as usize {
            None
        } else {
            Some(last.start + len as u32)
        }
    }
}

impl TokenTree {
    /// The tree of the highlighter's raw tokens, whose texts may span
    /// lines; `None` where a token of the tree would begin further right
    /// in its line than an offset can say.
    ///
    /// The tree begins with one empty line. Each token is cut at its line
    /// feeds, and its carriage returns are dropped; its first piece joins
    /// the current line, each further piece begins a new one. Every piece
    /// keeps the class and the modifiers of its token, and begins where the
    /// token before it on its line ends.
    pub fn from_raw_tokens(tokens: &Vec<Token>) -> (built: Option<TokenTree>)
        ensures
            match built {
                Some(tree) => starts_fit(spec_raw_tree(line_view(tokens@))) && tree@
                    == spec_raw_tree(line_view(tokens@)) && tree@.len() >= 1 && partitioned(tree@),
                None => !starts_fit(spec_raw_tree(line_view(tokens@))),
            },
    {
        let ghost raw = line_view(tokens@);
        proof {
            lemma_raw_tree_partitioned(raw);
        }
        let mut lines: Vec<Vec<Token>> = Vec::new();
        lines.push(Vec::new());
        assert(raw.take(0) =~= Seq::<TokenView>::empty());
        assert(lines_view(lines@) =~~= seq![Seq::<TokenView>::empty()]);
        let mut t: usize = 0;
        while t < tokens.len()
            invariant
                raw == line_view(tokens@),
                t <= tokens@.len(),
                lines@.len() > 0,
                lines_view(lines@) == spec_raw_tree(raw.take(t as int)),
            decreases tokens@.len() - t,
        {
            let token = &tokens[t];
            let parts = pieces(token.token.as_str());
            let ghost tree = lines_view(lines@);
            let ghost all = spec_pieces(token@.text);
            proof {
                assert(raw.take(t + 1).drop_last() =~= raw.take(t as int));
                assert(raw.take(t + 1).last() == token@);
                assert(all.take(0) =~= Seq::<Seq<char>>::empty());
            }
            let mut i: usize = 0;
            while i < parts.len()
                invariant
                    raw == line_view(tokens@),
                    t < tokens@.len(),
                    token@ == raw[t as int],
                    tree == spec_raw_tree(raw.take(t as int)),
                    tree.len() >= 1,
                    all == strings_view(parts@),
                    all == spec_pieces(token@.text),
                    i <= parts@.len(),
                    lines@.len() > 0,
                    lines_view(lines@) == push_pieces(
                        tree,
                        all.take(i as int),
                        token@.kind,
                        token@.modifiers,
                    ),
                decreases parts@.len() - i,
            {
                let ghost so_far = lines_view(lines@);
                proof {
                    assert(all.take(i + 1).drop_last() =~= all.take(i as int));
                    assert(all.take(i + 1).last() == all[i as int]);
                }
                if i > 0 {
                    lines.push(Vec::new());
                    assert(lines_view(lines@) =~~= so_far.push(Seq::empty()));
                }
                let ghost with_line = lines_view(lines@);
                let last = lines.len() - 1;
                assert(line_view(lines@[last as int]@) == with_line.last());
                let ghost next = push_piece(
                    with_line,
                    all[i as int],
                    token@.kind,
                    token@.modifiers,
                );
                assert(next == push_pieces(tree, all.take(i + 1), token@.kind, token@.modifiers));
                let start = match end_of_line(&lines[last]) {
                    Some(start) => start,
                    None => {
                        proof {
                            let whole = spec_raw_tree(raw);
                            let after = spec_raw_tree(raw.take(t + 1));
                            assert(raw.take(t + 1).drop_last() =~= raw.take(t as int));
                            assert(raw.take(t + 1).last() == raw[t as int]);
                            assert(after == push_pieces(
                                tree,
                                all,
                                token@.kind,
                                token@.modifiers,
                            ));
                            lemma_push_pieces_grows(
                                tree,
                                all,
                                token@.kind,
                                token@.modifiers,
                                i + 1,
                            );
                            lemma_raw_tree_grows(raw, t + 1);
                            lemma_grows_on(next, after, whole);
                            assert(next.last().last().start > u32::MAX);
                            assert(next[next.len() - 1][next.last().len() - 1].start > u32::MAX);
                            if starts_fit(whole) {
                                lemma_grown_keeps_tokens(next, whole);
                            }
                        }
                        return None;
                    },
                };
                let piece = Token {
                    start,
                    token: parts[i].clone(),
                    type_: token.type_.clone(),
                    modifiers: clone_modifiers(&token.modifiers),
                };
                assert(piece@ == TokenView {
                    start: line_end(with_line.last()),
                    text: all[i as int],
                    kind: token@.kind,
                    modifiers: token@.modifiers,
                });
                lines[last].push(piece);
                assert(lines_view(lines@) =~~= next);
                i += 1;
            }
            assert(all.take(i as int) =~= all);
            t += 1;
        }
        assert(raw.take(t as int) =~= raw);
        let tree = TokenTree { tokens: lines };
        assert(starts_fit(tree@));
        Some(tree)
    }

    /// Builds the tree from the highlighter's raw tokens, as
    /// `from_raw_tokens` does.
    pub fn set_raw_tokens(&mut self, tokens: Vec<Token>)
        requires
            starts_fit(spec_raw_tree(line_view(tokens@))),
        ensures
            final(self)@ == spec_raw_tree(line_view(tokens@)),
            final(self)@.len() >= 1,
            partitioned(final(self)@),
    {
        // the tree is there: every token of it begins within reach
        if let Some(tree) = TokenTree::from_raw_tokens(&tokens) {
            self.tokens = tree.tokens;
        }
    }
}

/// Whether every token of the tree of `tokens` begins at an offset that a
/// `u32` holds: what `TokenTree::set_raw_tokens` asks for.
pub fn raw_tokens_fit(tokens: &Vec<Token>) -> (fit: bool)
    ensures
        fit == starts_fit(spec_raw_tree(line_view(tokens@))),
{
    TokenTree::from_raw_tokens(tokens).is_some()
}

/// Whether each token of `line` begins where the one before it ends, and
/// the first at the beginning of the line: the tokens part the text of
/// the line among them, with no gap and no overlap.
pub open spec fn contiguous(line: Seq<TokenView>) -> bool {
    forall|j: int|
        0 <= j < line.len() ==> (#[trigger] line[j]).start == if j == 0 {
            0
        } else {
            line[j - 1].start + byte_len(line[j - 1].text)
        }
}

/// Whether every line of `tree` is contiguous.
pub open spec fn partitioned(tree: Seq<Seq<TokenView>>) -> bool {
    forall|i: int| 0 <= i < tree.len() ==> contiguous(#[trigger] tree[i])
}

/// Whether two lines have the same tokens but for their classes and
/// modifiers: as many, with the same beginnings and the same texts.
pub open spec fn same_spans(a: Seq<TokenView>, b: Seq<TokenView>) -> bool {
    a.len() == b.len() && forall|j: int|
        0 <= j < a.len() ==> (#[trigger] a[j]).start == b[j].start && a[j].text == b[j].text
}

/// Whether `text` is no bracket.
pub open spec fn is_plain(text: Seq<char>) -> bool {
    !is_opener(text) && opener_for(text) is None
}

/// A token more at the end of a partitioned tree leaves it partitioned.
pub proof fn lemma_push_piece_partitioned(
    tree: Seq<Seq<TokenView>>,
    piece: Seq<char>,
    kind: Seq<char>,
    modifiers: Option<Seq<Seq<char>>>,
)
    requires
        tree.len() >= 1,
        partitioned(tree),
    ensures
        push_piece(tree, piece, kind, modifiers).len() == tree.len(),
        partitioned(push_piece(tree, piece, kind, modifiers)),
{
    let line = tree.last();
    let grown = line.push(TokenView { start: line_end(line), text: piece, kind, modifiers });
    let after = push_piece(tree, piece, kind, modifiers);
    assert(contiguous(line));
    assert forall|j: int| 0 <= j < grown.len() implies (#[trigger] grown[j]).start == if j == 0 {
        0
    } else {
        grown[j - 1].start + byte_len(grown[j - 1].text)
    } by {
        if j < line.len() {
            assert(grown[j] == line[j]);
            if j > 0 {
                assert(grown[j - 1] == line[j - 1]);
            }
        }
    }
    assert forall|i: int| 0 <= i < after.len() implies contiguous(#[trigger] after[i]) by {
        if i < tree.len() - 1 {
            assert(after[i] == tree[i]);
        }
    }
}

/// The pieces of a raw token leave a partitioned tree partitioned.
pub proof fn lemma_push_pieces_partitioned(
    tree: Seq<Seq<TokenView>>,
    pieces: Seq<Seq<char>>,
    kind: Seq<char>,
    modifiers: Option<Seq<Seq<char>>>,
)
    requires
        tree.len() >= 1,
        partitioned(tree),
    ensures
        push_pieces(tree, pieces, kind, modifiers).len() >= 1,
        partitioned(push_pieces(tree, pieces, kind, modifiers)),
    decreases pieces.len(),
{
    if pieces.len() == 0 {
    } else if pieces.len() == 1 {
        lemma_push_piece_partitioned(tree, pieces[0], kind, modifiers);
    } else {
        lemma_push_pieces_partitioned(tree, pieces.drop_last(), kind, modifiers);
        let before = push_pieces(tree, pieces.drop_last(), kind, modifiers);
        let with_line = before.push(Seq::empty());
        assert forall|i: int| 0 <= i < with_line.len() implies contiguous(
            #[trigger] with_line[i],
        ) by {
            if i < before.len() {
                assert(with_line[i] == before[i]);
            }
        }
        lemma_push_piece_partitioned(with_line, pieces.last(), kind, modifiers);
    }
}

/// The tree of a run of raw tokens has a first line, and its tokens part
/// the text of each line among them.
pub proof fn lemma_raw_tree_partitioned(raw: Seq<TokenView>)
    ensures
        spec_raw_tree(raw).len() >= 1,
        partitioned(spec_raw_tree(raw)),
    decreases raw.len(),
{
    if raw.len() == 0 {
        let tree = spec_raw_tree(raw);
        assert forall|i: int| 0 <= i < tree.len() implies contiguous(#[trigger] tree[i]) by {}
    } else {
        lemma_raw_tree_partitioned(raw.drop_last());
        lemma_push_pieces_partitioned(
            spec_raw_tree(raw.drop_last()),
            spec_pieces(raw.last().text),
            raw.last().kind,
            raw.last().modifiers,
        );
    }
}

/// Reading a token as a bracket changes its class at most.
pub proof fn lemma_bracket_step_keeps_span(open: Seq<Seq<char>>, tok: TokenView)
    ensures
        bracket_step(open, tok).1.start == tok.start,
        bracket_step(open, tok).1.text == tok.text,
        bracket_step(open, tok).1.modifiers == tok.modifiers,
        is_plain(tok.text) ==> bracket_step(open, tok) == (open, tok),
{
}

/// A merged line has the tokens of the lexical line, with their
/// beginnings and texts; and each token that is no bracket is the lexical
/// token with its semantic counterpart laid over it, so that the semantic
/// class and modifiers stand where there is a counterpart, and the
/// lexical ones where there is none.
pub proof fn lemma_merge_line_tokens(open: Seq<Seq<char>>, line: Seq<TokenView>, sem: Seq<TokenView>)
    ensures
        same_spans(spec_merge_line(open, line, sem).1, line),
        forall|j: int|
            0 <= j < line.len() && is_plain((#[trigger] line[j]).text) ==> spec_merge_line(
                open,
                line,
                sem,
            ).1[j] == overlay(line[j], sem),
    decreases line.len(),
{
    if line.len() > 0 {
        let init = line.drop_last();
        lemma_merge_line_tokens(open, init, sem);
        let (before, head) = spec_merge_line(open, init, sem);
        let over = overlay(line.last(), sem);
        lemma_bracket_step_keeps_span(before, over);
        let merged = spec_merge_line(open, line, sem).1;
        assert forall|j: int| 0 <= j < merged.len() implies (#[trigger] merged[j]).start
            == line[j].start && merged[j].text == line[j].text by {
            if j < init.len() {
                assert(merged[j] == head[j]);
                assert(init[j] == line[j]);
            }
        }
        assert forall|j: int|
            0 <= j < line.len() && is_plain((#[trigger] line[j]).text) implies merged[j]
            == overlay(line[j], sem) by {
            if j < init.len() {
                assert(merged[j] == head[j]);
                assert(init[j] == line[j]);
            }
        }
    }
}

/// A merged tree has the lines and the tokens of the lexical tree, with
/// their beginnings and texts; and each token that is no bracket is the
/// lexical token with its semantic counterpart of the same line laid over
/// it.
pub proof fn lemma_merge_tokens(tree: Seq<Seq<TokenView>>, sem: Seq<Seq<TokenView>>)
    ensures
        spec_merge(tree, sem).len() == tree.len(),
        forall|i: int|
            0 <= i < tree.len() ==> same_spans(spec_merge(tree, sem)[i], #[trigger] tree[i]),
        forall|i: int, j: int|
            0 <= i < tree.len() && 0 <= j < tree[i].len() && is_plain(
                (#[trigger] tree[i][j]).text,
            ) ==> spec_merge(tree, sem)[i][j] == overlay(tree[i][j], sem_line(sem, i)),
    decreases tree.len(),
{
    if tree.len() > 0 {
        let init = tree.drop_last();
        lemma_merge_tokens(init, sem);
        let (before, head) = spec_merge_lines(init, sem);
        let last = tree.len() - 1;
        lemma_merge_line_tokens(before, tree.last(), sem_line(sem, last));
        let merged = spec_merge(tree, sem);
        assert forall|i: int| 0 <= i < tree.len() implies same_spans(
            merged[i],
            #[trigger] tree[i],
        ) by {
            if i < last {
                assert(merged[i] == head[i]);
                assert(init[i] == tree[i]);
            }
        }
        assert forall|i: int, j: int|
            0 <= i < tree.len() && 0 <= j < tree[i].len() && is_plain(
                (#[trigger] tree[i][j]).text,
            ) implies merged[i][j] == overlay(tree[i][j], sem_line(sem, i)) by {
            if i < last {
                assert(merged[i] == head[i]);
                assert(init[i] == tree[i]);
                assert(init[i][j] == tree[i][j]);
            }
        }
    }
}

/// Merging leaves a partitioned tree partitioned.
pub proof fn lemma_merge_keeps_partition(tree: Seq<Seq<TokenView>>, sem: Seq<Seq<TokenView>>)
    requires
        partitioned(tree),
    ensures
        partitioned(spec_merge(tree, sem)),
{
    lemma_merge_tokens(tree, sem);
    let merged = spec_merge(tree, sem);
    assert forall|i: int| 0 <= i < merged.len() implies contiguous(#[trigger] merged[i]) by {
        assert(same_spans(merged[i], tree[i]));
        assert(contiguous(tree[i]));
        assert forall|j: int| 0 <= j < merged[i].len() implies (#[trigger] merged[i][j]).start
            == if j == 0 {
            0
        } else {
            merged[i][j - 1].start + byte_len(merged[i][j - 1].text)
        } by {
            assert(merged[i][j].start == tree[i][j].start);
            if j > 0 {
                assert(merged[i][j - 1].start == tree[i][j - 1].start);
            }
        }
    }
}

} // verus!
