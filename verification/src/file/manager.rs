//! The open files, and the lexical highlighting of one of them: from the
//! events of a highlighter to the token tree of the document.

use super::parser::{highlighting_name_at, spec_highlighting_name_at};
use super::token::{
    line_view, lines_view, partitioned, spec_merge, spec_raw_tree, starts_fit, Token, TokenTree,
    TokenView,
};
use crate::text::{push_char, slice, spec_slice, str_eq, strings_view};
use vstd::prelude::*;
use vstd::std_specs::iter::IteratorSpec;
use vstd::string::*;

verus! {

/// One event of a highlighter's walk through a source text.
#[derive(Debug, Clone, Copy, PartialEq, Eq, Structural)]
pub enum HighlightEvent {
    /// The bytes from `start` to `end` of the source come next.
    Source { start: usize, end: usize },
    /// What follows has the highlight class of this number.
    HighlightStart(usize),
    /// The class that began last ends.
    HighlightEnd,
}

/// Why a run of highlight events cannot be turned into tokens.
#[derive(Debug, Clone, Copy, PartialEq, Eq, Structural)]
pub enum HighlightError {
    /// An event names a span that is no part of the source.
    SpanOutOfRange,
    /// An event names a highlight class that does not exist.
    UnknownHighlight,
    /// A line is so long that a token would begin further right in it
    /// than an offset can say.
    TooLong,
}

/// What has been made of the events so far: the tokens, and the classes
/// that are open, the innermost last.
pub struct EventState {
    pub tokens: Seq<TokenView>,
    pub classes: Seq<Seq<char>>,
}

/// The state after one more event.
///
/// A span of the source becomes a token of the innermost open class, or
/// of no class where none is open. The beginning of a class opens it, the
/// end of a class closes the innermost one, if there is one.
pub open spec fn event_step(source: Seq<char>, state: EventState, event: HighlightEvent) -> Result<
    EventState,
    HighlightError,
> {
    match event {
        HighlightEvent::Source { start, end } => match spec_slice(source, start as int, end as int) {
            Some(text) => Ok(
                EventState {
                    tokens: state.tokens.push(
                        TokenView {
                            start: 0,
                            text,
                            kind: if state.classes.len() > 0 {
                                state.classes.last()
                            } else {
                                Seq::empty()
                            },
                            modifiers: None,
                        },
                    ),
                    classes: state.classes,
                },
            ),
            None => Err(HighlightError::SpanOutOfRange),
        },
        HighlightEvent::HighlightStart(class) => match spec_highlighting_name_at(class as int) {
            Some(name) => Ok(
                EventState { tokens: state.tokens, classes: state.classes.push(name) },
            ),
            None => Err(HighlightError::UnknownHighlight),
        },
        HighlightEvent::HighlightEnd => Ok(
            EventState {
                tokens: state.tokens,
                classes: if state.classes.len() > 0 {
                    state.classes.drop_last()
                } else {
                    state.classes
                },
            },
        ),
    }
}

/// The state after a run of events, from no tokens and no open class. The
/// first event that cannot be read decides the error.
pub open spec fn spec_events(source: Seq<char>, events: Seq<HighlightEvent>) -> Result<
    EventState,
    HighlightError,
>
    decreases events.len(),
{
    if events.len() == 0 {
        Ok(EventState { tokens: Seq::empty(), classes: Seq::empty() })
    } else {
        match spec_events(source, events.drop_last()) {
            Ok(state) => event_step(source, state, events.last()),
            Err(e) => Err(e),
        }
    }
}

/// The raw tokens that a run of events makes of `source`.
pub open spec fn spec_raw_tokens(source: Seq<char>, events: Seq<HighlightEvent>) -> Result<
    Seq<TokenView>,
    HighlightError,
> {
    match spec_events(source, events) {
        Ok(state) => Ok(state.tokens),
        Err(e) => Err(e),
    }
}

/// Once an event cannot be read, no event after it mends the run.
pub proof fn lemma_event_failure_stays(source: Seq<char>, events: Seq<HighlightEvent>, n: int)
    requires
        0 <= n <= events.len(),
        spec_events(source, events.take(n)) is Err,
    ensures
        spec_events(source, events) == spec_events(source, events.take(n)),
    decreases events.len() - n,
{
    if n < events.len() {
        assert(events.take(n + 1).drop_last() =~= events.take(n));
        lemma_event_failure_stays(source, events, n + 1);
    } else {
        assert(events.take(n) =~= events);
    }
}

/// Turns the events of a highlighter's walk through `source` into raw
/// tokens, one for each span of the source, in the order of the events.
pub fn raw_tokens(source: &str, events: &[HighlightEvent]) -> (tokens: Result<
    Vec<Token>,
    HighlightError,
>)
    ensures
        match (tokens, spec_raw_tokens(source@, events@)) {
            (Ok(t), Ok(s)) => line_view(t@) == s,
            (Err(e), Err(f)) => e == f,
            _ => false,
        },
{
    let mut tokens: Vec<Token> = Vec::new();
    let mut current_token_types: Vec<String> = Vec::new();
    let mut k: usize = 0;
    assert(events@.take(0) =~= Seq::<HighlightEvent>::empty());
    assert(line_view(tokens@) =~= Seq::<TokenView>::empty());
    assert(strings_view(current_token_types@) =~= Seq::<Seq<char>>::empty());
    while k < events.len()
        invariant
            k <= events@.len(),
            spec_events(source@, events@.take(k as int)) == Ok::<EventState, HighlightError>(
                EventState {
                    tokens: line_view(tokens@),
                    classes: strings_view(current_token_types@),
                },
            ),
        decreases events@.len() - k,
    {
        let event = events[k];
        let ghost made = line_view(tokens@);
        let ghost open = strings_view(current_token_types@);
        proof {
            assert(events@.take(k + 1).drop_last() =~= events@.take(k as int));
            assert(events@.take(k + 1).last() == event);
            if spec_events(source@, events@.take(k + 1)) is Err {
                lemma_event_failure_stays(source@, events@, k + 1);
            }
        }
        match event {
            HighlightEvent::Source { start, end } => {
                let text = match slice(source, start, end) {
                    Some(text) => text,
                    None => {
                        return Err(HighlightError::SpanOutOfRange);
                    },
                };
                let type_ = if current_token_types.len() > 0 {
                    current_token_types[current_token_types.len() - 1].clone()
                } else {
                    String::new()
                };
                let token = Token { start: 0, token: text.to_string(), type_, modifiers: None };
                tokens.push(token);
                assert(line_view(tokens@) =~= made.push(token@));
            },
            HighlightEvent::HighlightStart(class) => {
                let name = match highlighting_name_at(class) {
                    Some(name) => name,
                    None => {
                        return Err(HighlightError::UnknownHighlight);
                    },
                };
                current_token_types.push(name.to_string());
                assert(strings_view(current_token_types@) =~= open.push(name@));
            },
            HighlightEvent::HighlightEnd => {
                current_token_types.pop();
                assert(open.len() > 0 ==> strings_view(current_token_types@) =~= open.drop_last());
                assert(open.len() == 0 ==> strings_view(current_token_types@) =~= open);
            },
        }
        k += 1;
    }
    assert(events@.take(k as int) =~= events@);
    Ok(tokens)
}

/// The place of the first line feed of `text`, or its length if it has
/// none.
pub open spec fn first_feed(text: Seq<char>) -> int
    decreases text.len(),
{
    if text.len() == 0 || text[0] == '\n' {
        0
    } else {
        1 + first_feed(text.drop_first())
    }
}

/// The lines of a text as a document holds them: each line without the
/// line feed that ended it, and without the carriage return before that
/// line feed, and then with CR LF at its end. A last line that no line
/// feed ends counts as well, and keeps a carriage return at its end.
pub open spec fn spec_content_lines(text: Seq<char>) -> Seq<Seq<char>>
    decreases text.len(),
{
    let stop = first_feed(text);
    if text.len() == 0 {
        Seq::empty()
    } else if 0 <= stop < text.len() {
        let raw = text.take(stop);
        let line = if raw.len() > 0 && raw.last() == '\r' {
            raw.drop_last()
        } else {
            raw
        };
        seq![line + seq!['\r', '\n']] + spec_content_lines(text.skip(stop + 1))
    } else {
        seq![text + seq!['\r', '\n']]
    }
}

/// Whether `text` has no line feed.
pub open spec fn no_feed(text: Seq<char>) -> bool {
    forall|i: int| 0 <= i < text.len() ==> text[i] != '\n'
}

/// The first line feed behind a text without one is the first line feed of
/// what follows the text.
pub proof fn lemma_first_feed_after(open: Seq<char>, rest: Seq<char>)
    requires
        no_feed(open),
    ensures
        first_feed(open + rest) == open.len() + first_feed(rest),
        0 <= first_feed(rest) <= rest.len(),
    decreases open.len() + rest.len(),
{
    if open.len() == 0 {
        assert(open + rest =~= rest);
        if rest.len() > 0 && rest[0] != '\n' {
            lemma_first_feed_after(open, rest.drop_first());
        }
    } else {
        assert((open + rest).drop_first() =~= open.drop_first() + rest);
        assert((open + rest)[0] == open[0]);
        lemma_first_feed_after(open.drop_first(), rest);
    }
}

/// The line that is being read: what has been kept of it, and the
/// carriage return that is held back until the next character shows
/// whether a line feed follows it.
pub open spec fn open_line(current: Seq<char>, pending: bool) -> Seq<char> {
    if pending {
        current.push('\r')
    } else {
        current
    }
}

/// The lines of `text` as a document holds them.
pub fn content_lines(text: &str) -> (lines: Vec<String>)
    ensures
        strings_view(lines@) == spec_content_lines(text@),
{
    let mut done: Vec<String> = Vec::new();
    let mut current = String::new();
    let mut pending = false;
    let mut it = text.chars();
    let ghost mut k: int = 0;
    proof {
        assert(text@.skip(0) =~= text@);
        assert(open_line(current@, pending) + text@ =~= text@);
        assert(strings_view(done@) + spec_content_lines(text@) =~= spec_content_lines(text@));
    }
    loop
        invariant
            0 <= k <= text@.len(),
            it.obeys_prophetic_iter_laws(),
            it.remaining() == text@.subrange(k, text@.len() as int),
            no_feed(open_line(current@, pending)),
            !pending ==> current@.len() == 0 || current@.last() != '\r',
            spec_content_lines(text@) == strings_view(done@) + spec_content_lines(
                open_line(current@, pending) + text@.skip(k),
            ),
        ensures
            k == text@.len(),
        decreases text@.len() - k,
    {
        let ghost open = open_line(current@, pending);
        let ghost rest = text@.skip(k);
        let ghost before = strings_view(done@);
        let ghost kept = current@;
        match it.next() {
            Some(c) => {
                proof {
                    assert(rest[0] == c);
                    assert(rest.drop_first() =~= text@.skip(k + 1));
                    lemma_first_feed_after(open, rest);
                }
                if c == '\n' {
                    push_char(&mut current, '\r');
                    push_char(&mut current, '\n');
                    done.push(current);
                    current = String::new();
                    pending = false;
                    proof {
                        let whole = open + rest;
                        assert(first_feed(whole) == open.len());
                        assert(whole.take(open.len() as int) =~= open);
                        assert(whole.skip(open.len() as int + 1) =~= text@.skip(k + 1));
                        assert(open_line(current@, pending) + text@.skip(k + 1) =~= text@.skip(
                            k + 1,
                        ));
                        let line = if open.len() > 0 && open.last() == '\r' {
                            open.drop_last()
                        } else {
                            open
                        };
                        assert(line =~= kept);
                        assert(kept.push('\r').push('\n') =~= line + seq!['\r', '\n']);
                        assert(strings_view(done@) =~= before + seq![line + seq!['\r', '\n']]);
                        assert(strings_view(done@) + spec_content_lines(text@.skip(k + 1))
                            =~= before + (seq![line + seq!['\r', '\n']] + spec_content_lines(
                            text@.skip(k + 1),
                        )));
                    }
                } else {
                    if pending {
                        push_char(&mut current, '\r');
                    }
                    if c == '\r' {
                        pending = true;
                    } else {
                        pending = false;
                        push_char(&mut current, c);
                    }
                    proof {
                        assert(open_line(current@, pending) =~= open.push(c));
                        assert(open.push(c) + text@.skip(k + 1) =~= open + rest);
                    }
                }
                proof {
                    k = k + 1;
                }
            },
            None => {
                break ;
            },
        }
    }
    let ghost open = open_line(current@, pending);
    let ghost before = strings_view(done@);
    proof {
        assert(text@.skip(k) =~= Seq::<char>::empty());
        assert(open + text@.skip(k) =~= open);
        lemma_first_feed_after(open, Seq::<char>::empty());
        assert(open + Seq::<char>::empty() =~= open);
    }
    if pending {
        push_char(&mut current, '\r');
    }
    assert(current@ =~= open);
    if !current.as_str().is_empty() {
        push_char(&mut current, '\r');
        push_char(&mut current, '\n');
        done.push(current);
        proof {
            assert(open.push('\r').push('\n') =~= open + seq!['\r', '\n']);
            assert(strings_view(done@) =~= before + seq![open + seq!['\r', '\n']]);
        }
    } else {
        assert(before + Seq::<Seq<char>>::empty() =~= before);
    }
    done
}

/// The token tree that a run of highlight events makes of `source`.
pub open spec fn spec_highlight(source: Seq<char>, events: Seq<HighlightEvent>) -> Result<
    Seq<Seq<TokenView>>,
    HighlightError,
> {
    match spec_raw_tokens(source, events) {
        Ok(raw) => if starts_fit(spec_raw_tree(raw)) {
            Ok(spec_raw_tree(raw))
        } else {
            Err(HighlightError::TooLong)
        },
        Err(e) => Err(e),
    }
}

/// The lexical token tree of `source`, from the events of a highlighter's
/// walk through it.
pub fn highlight(source: &str, events: &[HighlightEvent]) -> (tree: Result<
    TokenTree,
    HighlightError,
>)
    ensures
        match (tree, spec_highlight(source@, events@)) {
            (Ok(t), Ok(s)) => t@ == s && t@.len() >= 1 && partitioned(t@),
            (Err(e), Err(f)) => e == f,
            _ => false,
        },
{
    let tokens = match raw_tokens(source, events) {
        Ok(tokens) => tokens,
        Err(e) => {
            return Err(e);
        },
    };
    match TokenTree::from_raw_tokens(&tokens) {
        Some(tree) => Ok(tree),
        None => Err(HighlightError::TooLong),
    }
}

/// An open file: its path and its lines, each with CR LF at its end.
#[derive(Debug, Clone, PartialEq, Eq)]
pub struct File {
    pub path: String,
    pub content: Vec<String>,
}

/// What a file holds, as sequences of characters.
pub struct FileView {
    pub path: Seq<char>,
    pub content: Seq<Seq<char>>,
}

impl View for File {
    type V = FileView;

    open spec fn view(&self) -> FileView {
        FileView { path: self.path@, content: strings_view(self.content@) }
    }
}

impl File {
    /// The file at `path` whose text is `text`.
    pub fn new(path: &str, text: &str) -> (file: Self)
        ensures
            file@ == (FileView { path: path@, content: spec_content_lines(text@) }),
    {
        File { path: path.to_string(), content: content_lines(text) }
    }

    /// The text of the file: its lines, one after the other.
    pub fn source(&self) -> (text: String)
        ensures
            text@ == self@.content.flatten(),
    {
        let mut text = String::new();
        let mut i: usize = 0;
        let ghost lines = strings_view(self.content@);
        assert(lines.take(0) =~= Seq::<Seq<char>>::empty());
        assert(lines.take(0).flatten() =~= Seq::<char>::empty());
        while i < self.content.len()
            invariant
                lines == strings_view(self.content@),
                i <= self.content@.len(),
                text@ == lines.take(i as int).flatten(),
            decreases self.content@.len() - i,
        {
            text.append(self.content[i].as_str());
            proof {
                assert(lines.take(i + 1) =~= lines.take(i as int).push(lines[i as int]));
                lines.take(i as int).lemma_flatten_push(lines[i as int]);
            }
            i += 1;
        }
        assert(lines.take(i as int) =~= lines);
        text
    }
}

/// The files of a run, each as what it holds.
pub open spec fn files_view(files: Seq<File>) -> Seq<FileView> {
    files.map_values(|f: File| f@)
}

/// The place of the first file of `files` at `path`.
pub open spec fn spec_find_file(files: Seq<FileView>, path: Seq<char>) -> Option<int>
    decreases files.len(),
{
    if files.len() == 0 {
        None
    } else if files[0].path == path {
        Some(0)
    } else {
        match spec_find_file(files.drop_first(), path) {
            Some(at) => Some(at + 1),
            None => None,
        }
    }
}

/// `files` without the files at `path`.
pub open spec fn spec_close(files: Seq<FileView>, path: Seq<char>) -> Seq<FileView>
    decreases files.len(),
{
    if files.len() == 0 {
        files
    } else if files[0].path == path {
        spec_close(files.drop_first(), path)
    } else {
        seq![files[0]] + spec_close(files.drop_first(), path)
    }
}

/// The files that are open, in the order in which they were opened.
#[derive(Debug, Clone, PartialEq, Eq)]
pub struct FileManager {
    open_files: Vec<File>,
}

impl View for FileManager {
    type V = Seq<FileView>;

    closed spec fn view(&self) -> Seq<FileView> {
        files_view(self.open_files@)
    }
}

impl FileManager {
    /// No file open.
    pub fn new() -> (manager: Self)
        ensures
            manager@ == Seq::<FileView>::empty(),
    {
        let manager = FileManager { open_files: Vec::new() };
        assert(manager@ =~= Seq::<FileView>::empty());
        manager
    }

    /// Opens the file at `path`, whose text is `text`. A path may be open
    /// more than once.
    pub fn open_file(&mut self, path: &str, text: &str)
        ensures
            final(self)@ == old(self)@.push(
                FileView { path: path@, content: spec_content_lines(text@) },
            ),
    {
        let file = File::new(path, text);
        self.open_files.push(file);
        assert(self@ =~= old(self)@.push(file@));
    }

    /// Closes every file at `path`.
    pub fn close_file(&mut self, path: &str)
        ensures
            final(self)@ == spec_close(old(self)@, path@),
    {
        let mut i: usize = 0;
        proof {
            assert(self@.take(0) =~= Seq::<FileView>::empty());
            assert(self@.skip(0) =~= self@);
            assert(self@.take(0) + spec_close(self@, path@) =~= spec_close(self@, path@));
        }
        while i < self.open_files.len()
            invariant
                i <= self.open_files@.len(),
                spec_close(old(self)@, path@) == self@.take(i as int) + spec_close(
                    self@.skip(i as int),
                    path@,
                ),
            decreases self.open_files@.len() - i,
        {
            let ghost before = self@;
            assert(before.skip(i as int)[0] == before[i as int]);
            assert(before.skip(i as int).drop_first() =~= before.skip(i + 1));
            assert(before[i as int] == self.open_files@[i as int]@);
            if str_eq(self.open_files[i].path.as_str(), path) {
                self.open_files.remove(i);
                proof {
                    assert(self@.take(i as int) =~= before.take(i as int));
                    assert(self@.skip(i as int) =~= before.skip(i + 1));
                }
            } else {
                proof {
                    assert(before.take(i + 1) =~= before.take(i as int) + seq![before[i as int]]);
                    assert(before.take(i + 1) + spec_close(before.skip(i + 1), path@)
                        =~= before.take(i as int) + (seq![before[i as int]] + spec_close(
                        before.skip(i + 1),
                        path@,
                    )));
                }
                i += 1;
            }
        }
        proof {
            assert(self@.skip(i as int) =~= Seq::<FileView>::empty());
            assert(self@.take(i as int) =~= self@);
            assert(self@ + Seq::<FileView>::empty() =~= self@);
        }
    }

    /// The first file that is open at `path`.
    pub fn get_file(&self, path: &str) -> (file: Option<&File>)
        ensures
            match (file, spec_find_file(self@, path@)) {
                (Some(f), Some(at)) => 0 <= at < self@.len() && f@ == self@[at],
                (None, None) => true,
                _ => false,
            },
    {
        let mut i: usize = 0;
        assert(self@.skip(0) =~= self@);
        while i < self.open_files.len()
            invariant
                i <= self.open_files@.len(),
                spec_find_file(self@, path@) == match spec_find_file(self@.skip(i as int), path@) {
                    Some(at) => Some(at + i),
                    None => None,
                },
            decreases self.open_files@.len() - i,
        {
            assert(self@.skip(i as int)[0] == self@[i as int]);
            assert(self@[i as int] == self.open_files@[i as int]@);
            if str_eq(self.open_files[i].path.as_str(), path) {
                return Some(&self.open_files[i]);
            }
            assert(self@.skip(i as int).drop_first() =~= self@.skip(i + 1));
            i += 1;
        }
        assert(self@.skip(i as int).len() == 0);
        None
    }

    /// The lexical token tree of the first file that is open at `path`,
    /// from the events of a highlighter's walk through the file's text.
    ///
    /// There is none where no file is open at `path`, and none where the
    /// events do not fit the text.
    pub fn get_highlighting(&self, path: &str, events: &[HighlightEvent]) -> (tree: Option<
        TokenTree,
    >)
        ensures
            match tree {
                Some(t) => spec_find_file(self@, path@) is Some && spec_highlight(
                    self@[spec_find_file(self@, path@)->Some_0].content.flatten(),
                    events@,
                ) == Ok::<Seq<Seq<TokenView>>, HighlightError>(t@),
                None => spec_find_file(self@, path@) is None || spec_highlight(
                    self@[spec_find_file(self@, path@)->Some_0].content.flatten(),
                    events@,
                ) is Err,
            },
    {
        let file = self.get_file(path)?;
        let content = file.source();
        match highlight(content.as_str(), events) {
            Ok(tree) => Some(tree),
            Err(_) => None,
        }
    }

    /// The token tree of the first file that is open at `path`: its
    /// lexical tree with the semantic tokens `semantic` laid over it.
    pub fn get_semantic_highlighting(
        &self,
        path: &str,
        events: &[HighlightEvent],
        semantic: Vec<Vec<Token>>,
    ) -> (tree: Option<TokenTree>)
        ensures
            match tree {
                Some(t) => spec_find_file(self@, path@) is Some && match spec_highlight(
                    self@[spec_find_file(self@, path@)->Some_0].content.flatten(),
                    events@,
                ) {
                    Ok(lexical) => t@ == spec_merge(lexical, lines_view(semantic@)),
                    Err(_) => false,
                },
                None => spec_find_file(self@, path@) is None || spec_highlight(
                    self@[spec_find_file(self@, path@)->Some_0].content.flatten(),
                    events@,
                ) is Err,
            },
    {
        let mut syntax_tree = self.get_highlighting(path, events)?;
        let mut semantic_tree = TokenTree::new();
        semantic_tree.set_tokens(semantic);
        syntax_tree.merge(semantic_tree);
        Some(syntax_tree)
    }
}

} // verus!
