//! Why a figure file could not be used, said the way a compiler would: where, what, and
//! the offending line.
//!
//! ```text
//! figure.json5:41:9: layers[2].elements[3]: unknown field `sidez`, expected one of …
//!    41 |         { type: "polygon", sidez: 7, r: 318 },
//!       |         ^
//! ```

use crate::chars::{
    decimal, from_chars, lemma_decimal_len, lines, pad_left, push_decimal, push_range,
    push_str, split_lines, to_chars,
};
use vstd::prelude::*;

verus! {

#[verifier::external_type_specification]
#[verifier::external_body]
#[verifier::reject_recursive_types(E)]
pub struct ExPathError<E>(serde_path_to_error::Error<E>);

#[verifier::external_type_specification]
#[verifier::external_body]
pub struct ExJson5Error(json5::Error);

/// Where in the document the error is, as `serde_path_to_error` writes its path, such as
/// `layers[2].elements[3].radius`, or `.` at the top.
pub uninterp spec fn path_text(err: serde_path_to_error::Error<json5::Error>) -> Seq<char>;

/// The parser's own error inside `err`.
pub uninterp spec fn inner_error(err: serde_path_to_error::Error<json5::Error>) -> json5::Error;

/// The text of a json5 error.
pub uninterp spec fn json5_text(err: json5::Error) -> Seq<char>;

/// Where a json5 error is, 0-based (line, column), if json5 knows.
pub uninterp spec fn json5_place(err: json5::Error) -> Option<(usize, usize)>;

/// `serde_path_to_error::Error::path`, written out with its `Display`: named `path_text`.
#[verifier::external_body]
fn error_path(err: &serde_path_to_error::Error<json5::Error>) -> (s: String)
    ensures
        s@ == path_text(*err),
{
    err.path().to_string()
}

/// `serde_path_to_error::Error::into_inner`: the parser's own error, named `inner_error`.
#[verifier::external_body]
fn error_inner(err: serde_path_to_error::Error<json5::Error>) -> (inner: json5::Error)
    ensures
        inner == inner_error(err),
{
    err.into_inner()
}

/// The text of a `json5::Error` (its `Display`), named `json5_text`. When the error has a
/// position, json5 ends the text with ` at ` and the position.
#[verifier::external_body]
fn json5_message(err: &json5::Error) -> (s: String)
    ensures
        s@ == json5_text(*err),
{
    err.to_string()
}

/// `json5::Error::position`, as 0-based (line, column), named `json5_place`.
#[verifier::external_body]
fn json5_position(err: &json5::Error) -> (p: Option<(usize, usize)>)
    ensures
        p == json5_place(*err),
{
    err.position().map(|p| (p.line, p.column))
}

/// How json5 writes the 0-based position `(line, column)`: `line L column C`, both
/// counted from 1.
pub open spec fn position_words(line: nat, column: nat) -> Seq<char> {
    "line "@ + decimal(line + 1) + " column "@ + decimal(column + 1)
}

/// `json5::Position`'s `Display`: `line {line + 1} column {column + 1}`.
#[verifier::external_body]
fn json5_position_text(line: usize, column: usize) -> (s: String)
    requires
        line < usize::MAX,
        column < usize::MAX,
    ensures
        s@ == position_words(line as nat, column as nat),
{
    json5::Position { line, column }.to_string()
}

/// Why a figure file could not be used.
#[derive(Debug)]
pub struct FigureError {
    /// The file, as it is shown.
    file: Option<String>,
    /// 1-based line and column, when the parser knows them.
    position: Option<(usize, usize)>,
    /// Where in the figure it went wrong, e.g. `layers[2] "letter ring" › elements[3] (polygon)`.
    context: String,
    message: String,
    /// The source line at `position`, for the excerpt.
    excerpt: Option<String>,
}

/// What a `FigureError` holds, as text.
pub struct ErrorView {
    pub file: Option<Seq<char>>,
    pub position: Option<(usize, usize)>,
    pub context: Seq<char>,
    pub message: Seq<char>,
    pub excerpt: Option<Seq<char>>,
}

impl View for FigureError {
    type V = ErrorView;

    closed spec fn view(&self) -> ErrorView {
        ErrorView {
            file: match self.file {
                Some(f) => Some(f@),
                None => None,
            },
            position: self.position,
            context: self.context@,
            message: self.message@,
            excerpt: match self.excerpt {
                Some(e) => Some(e@),
                None => None,
            },
        }
    }
}

/// The source line `line` (0-based) of `src`, if it has one.
pub open spec fn source_line(src: Seq<char>, line: nat) -> Option<Seq<char>> {
    if line < lines(src).len() {
        Some(lines(src)[line as int])
    } else {
        None
    }
}

/// `message` with `suffix` taken off its end, if it ends with it.
pub open spec fn without_suffix(message: Seq<char>, suffix: Seq<char>) -> Seq<char> {
    if suffix.len() <= message.len() && message.skip(message.len() - suffix.len()) == suffix {
        message.take(message.len() - suffix.len())
    } else {
        message
    }
}

/// The start of an error's text: `file:line:col: `, each part only when known.
pub open spec fn head_text(file: Option<Seq<char>>, position: Option<(usize, usize)>) -> Seq<char> {
    match (file, position) {
        (Some(file), Some((line, col))) => file + ":"@ + decimal(line as nat) + ":"@ + decimal(
            col as nat,
        ) + ": "@,
        (Some(file), None) => file + ": "@,
        (None, Some((line, col))) => decimal(line as nat) + ":"@ + decimal(col as nat) + ": "@,
        (None, None) => seq![],
    }
}

/// The offending line, numbered, with a caret under the column.
pub open spec fn excerpt_text(position: Option<(usize, usize)>, excerpt: Option<Seq<char>>) -> Seq<
    char,
> {
    match (position, excerpt) {
        (Some((line, col)), Some(text)) => {
            let number = decimal(line as nat);
            "\n "@ + number + " | "@ + text + "\n "@ + pad_left(seq![], number.len()) + " | "@
                + pad_left(seq!['^'], col as nat)
        },
        _ => seq![],
    }
}

/// The text of an error, compiler style: `file:line:col: context: message`, each part only
/// when known, then the offending line with a caret under the column.
pub open spec fn error_text(e: ErrorView) -> Seq<char> {
    let context = if e.context.len() == 0 { seq![] } else { e.context + ": "@ };
    head_text(e.file, e.position) + context + e.message + excerpt_text(e.position, e.excerpt)
}

/// A position to point at: one whose line and column can be counted from 1.
pub open spec fn kept_place(p: Option<(usize, usize)>) -> Option<(usize, usize)> {
    match p {
        Some((l, c)) => if l < usize::MAX && c < usize::MAX { Some((l, c)) } else { None },
        None => None,
    }
}

/// The error made of a parse failure: serde's field `path`, json5's `message`, and json5's
/// 0-based `position` if it knows one. The position (counted from 1) leads the text, with
/// the offending line of `src` to show, and is taken off the end of json5's message; the
/// path is the context unless it is the top, `.`.
pub open spec fn parsed_view(
    src: Seq<char>,
    path: Seq<char>,
    message: Seq<char>,
    position: Option<(usize, usize)>,
) -> ErrorView {
    ErrorView {
        file: None,
        position: match position {
            Some((l, c)) => Some(((l + 1) as usize, (c + 1) as usize)),
            None => None,
        },
        context: if path == "."@ { Seq::<char>::empty() } else { path },
        message: match position {
            Some((l, c)) => without_suffix(message, " at "@ + position_words(l as nat, c as nat)),
            None => message,
        },
        excerpt: match position {
            Some((l, c)) => source_line(src, l as nat),
            None => None,
        },
    }
}

impl FigureError {
    /// An error saying `message`, not yet placed anywhere.
    pub fn new(message: String) -> (e: Self)
        ensures
            e@.message == message@,
            e@.file is None,
            e@.position is None,
            e@.context == Seq::<char>::empty(),
            e@.excerpt is None,
    {
        FigureError { file: None, position: None, context: String::new(), message, excerpt: None }
    }

    /// The same error, in the file `path` (as it is shown).
    pub fn file(self, path: &str) -> (e: Self)
        ensures
            e@.file == Some(path@),
            e@.position == self@.position,
            e@.context == self@.context,
            e@.message == self@.message,
            e@.excerpt == self@.excerpt,
    {
        let mut e = self;
        e.file = Some(String::from_str(path));
        e
    }

    /// The same error, at `context` in the figure.
    pub fn context(self, context: String) -> (e: Self)
        ensures
            e@.context == context@,
            e@.file == self@.file,
            e@.position == self@.position,
            e@.message == self@.message,
            e@.excerpt == self@.excerpt,
    {
        let mut e = self;
        e.context = context;
        e
    }

    /// Point at 0-based `line` and `column` of `src`.
    pub fn at(self, src: &str, line: usize, column: usize) -> (e: Self)
        requires
            line < usize::MAX,
            column < usize::MAX,
        ensures
            e@.position == Some(((line + 1) as usize, (column + 1) as usize)),
            e@.excerpt == source_line(src@, line as nat),
            e@.file == self@.file,
            e@.context == self@.context,
            e@.message == self@.message,
    {
        let mut e = self;
        e.position = Some((line + 1, column + 1));
        let chars = to_chars(src);
        let ls = split_lines(&chars);
        if line < ls.len() {
            e.excerpt = Some(from_chars(ls[line].as_slice()));
        } else {
            e.excerpt = None;
        }
        e
    }

    /// A parse failure, from the field path serde was in, json5's message, and json5's
    /// 0-based position if it knows one. The position leads the text rather than trailing
    /// json5's message, and the path becomes the context unless it is the top, `.`.
    pub fn from_parts(
        src: &str,
        path: String,
        message: String,
        position: Option<(usize, usize)>,
    ) -> (e: Self)
        requires
            position matches Some((l, c)) ==> l < usize::MAX && c < usize::MAX,
        ensures
            e@.file is None,
            e@.context == if path@ == "."@ { Seq::<char>::empty() } else { path@ },
            e@.message == match position {
                Some((l, c)) => without_suffix(message@, " at "@ + position_words(l as nat, c as nat)),
                None => message@,
            },
            e@.position == match position {
                Some((l, c)) => Some(((l + 1) as usize, (c + 1) as usize)),
                None => None,
            },
            e@.excerpt == match position {
                Some((l, c)) => source_line(src@, l as nat),
                None => None,
            },
    {
        let mut e = FigureError::new(String::new());
        let mut text = message;
        if let Some((l, c)) = position {
            // json5 appends the position to its message; it is shown up front instead.
            let words = json5_position_text(l, c);
            let mut suffix: Vec<char> = Vec::new();
            push_str(&mut suffix, " at ");
            push_str(&mut suffix, words.as_str());
            text = strip_suffix_of(text.as_str(), &suffix);
            e = e.at(src, l, c);
        }
        e.message = text;
        let dot = String::from_str(".");
        if !(path == dot) {
            e.context = path;
        } else {
            e.context = String::new();
        }
        e
    }

    /// A parse failure, with the field path serde was in and json5's position: the error
    /// `from_parts` makes of the path, message and position that `err` carries (a position
    /// whose line or column is the largest `usize` has no place to point at, and is left
    /// out).
    pub fn parse(src: &str, err: serde_path_to_error::Error<json5::Error>) -> (e: Self)
        ensures
            e@ == parsed_view(
                src@,
                path_text(err),
                json5_text(inner_error(err)),
                kept_place(json5_place(inner_error(err))),
            ),
    {
        let path = error_path(&err);
        let inner = error_inner(err);
        let message = json5_message(&inner);
        let position = json5_position(&inner);
        let position = match position {
            Some((l, c)) => if l < usize::MAX && c < usize::MAX {
                Some((l, c))
            } else {
                None
            },
            None => None,
        };
        let e = FigureError::from_parts(src, path, message, position);
        assert(e@ == parsed_view(src@, path_text(err), json5_text(inner_error(err)), position));
        e
    }

    /// The error as text (what `Display` would show).
    pub fn to_string(&self) -> (s: String)
        ensures
            s@ == error_text(self@),
    {
        let mut out: Vec<char> = Vec::new();
        push_head(&mut out, &self.file, self.position);
        if self.context.as_str().unicode_len() != 0 {
            push_str(&mut out, self.context.as_str());
            push_str(&mut out, ": ");
        }
        push_str(&mut out, self.message.as_str());
        push_excerpt(&mut out, self.position, &self.excerpt);
        from_chars(&out)
    }
}

fn push_head(out: &mut Vec<char>, file: &Option<String>, position: Option<(usize, usize)>)
    ensures
        final(out)@ == old(out)@ + head_text(
            match file {
                Some(f) => Some(f@),
                None => None,
            },
            position,
        ),
{
    match (file, position) {
        (Some(file), Some((line, col))) => {
            push_str(out, file.as_str());
            push_str(out, ":");
            push_decimal(out, line as u64);
            push_str(out, ":");
            push_decimal(out, col as u64);
            push_str(out, ": ");
        },
        (Some(file), None) => {
            push_str(out, file.as_str());
            push_str(out, ": ");
        },
        (None, Some((line, col))) => {
            push_decimal(out, line as u64);
            push_str(out, ":");
            push_decimal(out, col as u64);
            push_str(out, ": ");
        },
        (None, None) => {},
    }
}

fn push_excerpt(out: &mut Vec<char>, position: Option<(usize, usize)>, excerpt: &Option<String>)
    ensures
        final(out)@ == old(out)@ + excerpt_text(
            position,
            match excerpt {
                Some(t) => Some(t@),
                None => None,
            },
        ),
{
    match (position, excerpt) {
        (Some((line, col)), Some(text)) => {
            let mut number: Vec<char> = Vec::new();
            push_decimal(&mut number, line as u64);
            push_str(out, "\n ");
            push_range(out, &number, 0, number.len());
            push_str(out, " | ");
            push_str(out, text.as_str());
            push_str(out, "\n ");
            push_spaces(out, number.len());
            push_str(out, " | ");
            if col > 1 {
                push_spaces(out, col - 1);
            }
            out.push('^');
            proof {
                assert(number@.subrange(0, number@.len() as int) == number@);
                assert(pad_left(seq![], number@.len()) == Seq::new(number@.len(), |i: int| ' '));
                if col > 1 {
                    assert(pad_left(seq!['^'], col as nat) == Seq::new((col - 1) as nat, |i: int| ' ')
                        + seq!['^']);
                } else {
                    assert(pad_left(seq!['^'], col as nat) == seq!['^']);
                }
            }
        },
        _ => {},
    }
}

/// Append `n` spaces.
fn push_spaces(out: &mut Vec<char>, n: usize)
    ensures
        final(out)@ == old(out)@ + Seq::new(n as nat, |i: int| ' '),
{
    let mut i: usize = 0;
    while i < n
        invariant
            i <= n,
            out@ == old(out)@ + Seq::new(i as nat, |k: int| ' '),
        decreases n - i,
    {
        out.push(' ');
        i += 1;
        assert(out@ == old(out)@ + Seq::new(i as nat, |k: int| ' '));
    }
}

/// `text` with `suffix` taken off its end, if it ends with it (`str::strip_suffix`).
fn strip_suffix_of(text: &str, suffix: &Vec<char>) -> (s: String)
    ensures
        s@ == without_suffix(text@, suffix@),
{
    let chars = to_chars(text);
    if suffix.len() <= chars.len() {
        let start = chars.len() - suffix.len();
        let mut same = true;
        let mut i: usize = 0;
        while i < suffix.len()
            invariant
                start + suffix@.len() == chars@.len(),
                i <= suffix@.len(),
                same <==> forall|k: int| 0 <= k < i ==> chars@[start + k] == suffix@[k],
            decreases suffix@.len() - i,
        {
            assert(start + i < chars.len());
            if chars[start + i] != suffix[i] {
                same = false;
            }
            i += 1;
        }
        if same {
            assert(chars@.skip(start as int) == suffix@);
            let mut kept: Vec<char> = Vec::new();
            push_range(&mut kept, &chars, 0, start);
            assert(chars@.subrange(0, start as int) == chars@.take(start as int));
            return from_chars(&kept);
        } else {
            assert(chars@.skip(start as int) != suffix@) by {
                let k = choose|k: int| 0 <= k < suffix@.len() && chars@[start + k] != suffix@[k];
                assert(chars@.skip(start as int)[k] != suffix@[k]);
            }
        }
    }
    from_chars(&chars)
}

} // verus!
