use vstd::prelude::*;
use vstd::string::StringExecFns;

verus! {

/// Mathematical model of an [`ErrorKind`].
pub enum ErrorKindView {
    Incomprehensible(char),
    SomethingMissing { what: Seq<char>, needs: Seq<char> },
    MismatchedOpening(char),
    MismatchedClosing(char),
    Dummy,
}

/// What is wrong with a score.
#[derive(PartialEq, Debug)]
pub enum ErrorKind {
    /// A character that is no note of the set and no sign of the language.
    Incomprehensible(char),
    /// Something of the language that lacks what it needs.
    SomethingMissing { what: String, needs: String },
    /// An opening bracket that is never closed.
    MismatchedOpening(char),
    /// A closing bracket that was never opened.
    MismatchedClosing(char),
    /// The kind of an error that was not raised by anything.
    Dummy,
}

impl View for ErrorKind {
    type V = ErrorKindView;

    open spec fn view(&self) -> ErrorKindView {
        match self {
            ErrorKind::Incomprehensible(c) => ErrorKindView::Incomprehensible(*c),
            ErrorKind::SomethingMissing { what, needs } => ErrorKindView::SomethingMissing {
                what: what@,
                needs: needs@,
            },
            ErrorKind::MismatchedOpening(c) => ErrorKindView::MismatchedOpening(*c),
            ErrorKind::MismatchedClosing(c) => ErrorKindView::MismatchedClosing(*c),
            ErrorKind::Dummy => ErrorKindView::Dummy,
        }
    }
}

impl Clone for ErrorKind {
    fn clone(&self) -> (kind: ErrorKind)
        ensures
            kind@ == self@,
    {
        match self {
            ErrorKind::Incomprehensible(c) => ErrorKind::Incomprehensible(*c),
            ErrorKind::SomethingMissing { what, needs } => ErrorKind::SomethingMissing {
                what: what.clone(),
                needs: needs.clone(),
            },
            ErrorKind::MismatchedOpening(c) => ErrorKind::MismatchedOpening(*c),
            ErrorKind::MismatchedClosing(c) => ErrorKind::MismatchedClosing(*c),
            ErrorKind::Dummy => ErrorKind::Dummy,
        }
    }
}

impl Default for ErrorKind {
    fn default() -> (kind: ErrorKind)
        ensures
            kind@ == ErrorKindView::Dummy,
    {
        ErrorKind::Dummy
    }
}

/// Something of the language lacks what it needs.
pub open spec fn missing(what: Seq<char>, needs: Seq<char>) -> ErrorKindView {
    ErrorKindView::SomethingMissing { what, needs }
}

/// Mathematical model of a [`ParseError`].
pub struct ParseErrorView {
    pub kind: ErrorKindView,
    /// Line and column, both counted from 1.
    pub at: (usize, usize),
}

/// A syntax error in a score: what is wrong, and the line and the column
/// where it is wrong, both counted from 1.
#[derive(PartialEq, Debug)]
pub struct ParseError {
    kind: ErrorKind,
    at: (usize, usize),
}

impl View for ParseError {
    type V = ParseErrorView;

    closed spec fn view(&self) -> ParseErrorView {
        ParseErrorView { kind: self.kind@, at: self.at }
    }
}

impl Clone for ParseError {
    fn clone(&self) -> (error: ParseError)
        ensures
            error@ == self@,
    {
        ParseError { kind: self.kind.clone(), at: self.at }
    }
}

impl Default for ParseError {
    fn default() -> (error: ParseError)
        ensures
            error@ == (ParseErrorView { kind: ErrorKindView::Dummy, at: (0, 0) }),
    {
        ParseError { kind: ErrorKind::Dummy, at: (0, 0) }
    }
}

/// The text of a natural number in base ten.
pub open spec fn decimal(n: nat) -> Seq<char>
    decreases n,
{
    if n < 10 {
        seq![digit_char(n)]
    } else {
        decimal(n / 10).push(digit_char(n % 10))
    }
}

/// The character of a digit.
pub open spec fn digit_char(d: nat) -> char {
    if d == 0 {
        '0'
    } else if d == 1 {
        '1'
    } else if d == 2 {
        '2'
    } else if d == 3 {
        '3'
    } else if d == 4 {
        '4'
    } else if d == 5 {
        '5'
    } else if d == 6 {
        '6'
    } else if d == 7 {
        '7'
    } else if d == 8 {
        '8'
    } else {
        '9'
    }
}

/// How an error kind reads to the user.
pub open spec fn kind_text(kind: ErrorKindView) -> Seq<char> {
    match kind {
        ErrorKindView::Incomprehensible(c) => "Unknown character \""@.push(c).push('"'),
        ErrorKindView::SomethingMissing { what, needs } => what + "s need "@ + needs,
        ErrorKindView::MismatchedOpening(c) => seq!['"', c] + "\" closure is never closed"@,
        ErrorKindView::MismatchedClosing(c) => "This closing \""@.push(c)
            + "\" needs an opening friend"@,
        ErrorKindView::Dummy => "Dummy error"@,
    }
}

/// How an error reads to the user: its kind, then its line and column.
pub open spec fn error_text(error: ParseErrorView) -> Seq<char> {
    kind_text(error.kind) + " at ("@ + decimal(error.at.0 as nat) + ", "@ + decimal(
        error.at.1 as nat,
    ).push(')')
}

/// `String::push` of the standard library: the character is appended to
/// the end of the text, and nothing else of the text changes.
pub assume_specification[ String::push ](text: &mut String, c: char)
    ensures
        final(text)@ == old(text)@.push(c),
;

/// Writes a number in base ten at the end of a text.
pub fn push_decimal(text: &mut String, n: usize)
    ensures
        final(text)@ == old(text)@ + decimal(n as nat),
    decreases n,
{
    if n < 10 {
        let c = digit(n);
        text.push(c);
        assert(old(text)@.push(c) =~= old(text)@ + decimal(n as nat));
    } else {
        push_decimal(text, n / 10);
        let c = digit(n % 10);
        text.push(c);
        assert((old(text)@ + decimal((n / 10) as nat)).push(c) =~= old(text)@ + decimal(
            n as nat,
        ));
    }
}

/// The character of a digit.
pub fn digit(d: usize) -> (c: char)
    requires
        d < 10,
    ensures
        c == digit_char(d as nat),
{
    if d == 0 {
        '0'
    } else if d == 1 {
        '1'
    } else if d == 2 {
        '2'
    } else if d == 3 {
        '3'
    } else if d == 4 {
        '4'
    } else if d == 5 {
        '5'
    } else if d == 6 {
        '6'
    } else if d == 7 {
        '7'
    } else if d == 8 {
        '8'
    } else {
        '9'
    }
}

impl ErrorKind {
    /// The kind of something that lacks what it needs.
    pub fn lacking(what: &str, needs: &str) -> (kind: ErrorKind)
        ensures
            kind@ == missing(what@, needs@),
    {
        ErrorKind::SomethingMissing {
            what: String::from_str(what),
            needs: String::from_str(needs),
        }
    }

    /// How the kind reads to the user.
    pub fn describe(&self) -> (text: String)
        ensures
            text@ == kind_text(self@),
    {
        match self {
            ErrorKind::Incomprehensible(c) => {
                let mut text = String::from_str("Unknown character \"");
                text.push(*c);
                text.push('"');
                text
            },
            ErrorKind::SomethingMissing { what, needs } => {
                let mut text = String::from_str(what.as_str());
                text.append("s need ");
                text.append(needs.as_str());
                text
            },
            ErrorKind::MismatchedOpening(c) => {
                let mut text = String::new();
                text.push('"');
                text.push(*c);
                text.append("\" closure is never closed");
                assert(text@ =~= kind_text(self@));
                text
            },
            ErrorKind::MismatchedClosing(c) => {
                let mut text = String::from_str("This closing \"");
                text.push(*c);
                text.append("\" needs an opening friend");
                text
            },
            ErrorKind::Dummy => String::from_str("Dummy error"),
        }
    }
}

impl ParseError {
    /// An error of the given kind at the given line and column.
    pub fn new(kind: ErrorKind, at: (usize, usize)) -> (error: ParseError)
        ensures
            error@ == (ParseErrorView { kind: kind@, at }),
    {
        ParseError { kind, at }
    }

    /// What is wrong.
    pub fn kind(&self) -> (kind: &ErrorKind)
        ensures
            kind@ == self@.kind,
    {
        &self.kind
    }

    /// Line and column of the error, both counted from 1.
    pub fn at(&self) -> (at: (usize, usize))
        ensures
            at == self@.at,
    {
        self.at
    }

    /// How the error reads to the user: its kind, then its line and column.
    pub fn describe(&self) -> (text: String)
        ensures
            text@ == error_text(self@),
    {
        let mut text = self.kind.describe();
        text.append(" at (");
        push_decimal(&mut text, self.at.0);
        text.append(", ");
        push_decimal(&mut text, self.at.1);
        text.push(')');
        proof {
            let e = self@;
            assert(text@ =~= error_text(e));
        }
        text
    }
}

} // verus!
