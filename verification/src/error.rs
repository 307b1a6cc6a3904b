//! Error values of the parser.
use vstd::prelude::*;
use crate::text::{decimal, push_char, push_decimal};

verus! {

/// Why a macro could not be flattened.
#[derive(Debug, PartialEq, Eq)]
pub enum MacroError {
    /// No macro of this name exists.
    NotFound(String),
    /// Flattening this macro would need its own value.
    InfiniteLoop(String),
}

/// The mathematical model of a [`MacroError`]: the variant and the macro's name.
pub enum MacroFault {
    NotFound(Seq<char>),
    InfiniteLoop(Seq<char>),
}

impl View for MacroError {
    type V = MacroFault;

    open spec fn view(&self) -> MacroFault {
        match self {
            MacroError::NotFound(name) => MacroFault::NotFound(name@),
            MacroError::InfiniteLoop(name) => MacroFault::InfiniteLoop(name@),
        }
    }
}

/// A parse failure: a message, where it happened (line and column), and the failure
/// that caused it.
#[derive(Debug)]
pub struct ParseError {
    msg: String,
    pos: Option<(usize, usize)>,
    src: Option<Box<ParseError>>,
}

/// The mathematical model of a [`ParseError`].
pub struct ErrorModel {
    pub msg: Seq<char>,
    pub pos: Option<(usize, usize)>,
    pub src: Option<Box<ErrorModel>>,
}

/// The text ` <line:column>` that follows the message where a position is known.
pub open spec fn position_text(pos: Option<(usize, usize)>) -> Seq<char> {
    match pos {
        Some((line, column)) => seq![' ', '<'] + decimal(line as nat) + seq![':'] + decimal(
            column as nat,
        ) + seq!['>'],
        None => Seq::<char>::empty(),
    }
}

/// How an error reads: its message, its position if known, then, on a new line, how its
/// source reads.
pub open spec fn rendering(m: ErrorModel) -> Seq<char>
    decreases m,
{
    m.msg + position_text(m.pos) + match m.src {
        Some(src) => seq!['\n'] + rendering(*src),
        None => Seq::<char>::empty(),
    }
}

impl ParseError {
    pub closed spec fn model(&self) -> ErrorModel
        decreases self,
    {
        ErrorModel {
            msg: self.msg@,
            pos: self.pos,
            src: match &self.src {
                Some(src) => Some(Box::new(src.model())),
                None => None,
            },
        }
    }

    /// An error with a message only.
    pub fn new(msg: &str) -> (e: Self)
        ensures
            e.model() == (ErrorModel { msg: msg@, pos: None, src: None }),
    {
        ParseError { msg: msg.to_owned(), pos: None, src: None }
    }

    /// An error with a message and a position.
    pub fn new_with_pos(msg: &str, pos: (usize, usize)) -> (e: Self)
        ensures
            e.model() == (ErrorModel { msg: msg@, pos: Some(pos), src: None }),
    {
        ParseError { msg: msg.to_owned(), pos: Some(pos), src: None }
    }

    /// An error with a message, caused by `src`.
    pub fn new_with_source(msg: &str, src: ParseError) -> (e: Self)
        ensures
            e.model() == (ErrorModel { msg: msg@, pos: None, src: Some(Box::new(src.model())) }),
    {
        ParseError { msg: msg.to_owned(), pos: None, src: Some(Box::new(src)) }
    }

    /// An error with a message and a position, caused by `src`.
    pub fn new_with_pos_source(msg: &str, pos: (usize, usize), src: ParseError) -> (e: Self)
        ensures
            e.model() == (ErrorModel { msg: msg@, pos: Some(pos), src: Some(Box::new(src.model())) }),
    {
        ParseError { msg: msg.to_owned(), pos: Some(pos), src: Some(Box::new(src)) }
    }

    /// The error that caused this one, if any.
    pub fn source(&self) -> (r: Option<&ParseError>)
        ensures
            match r {
                Some(src) => self.model().src == Some(Box::new(src.model())),
                None => self.model().src is None,
            },
    {
        match &self.src {
            Some(src) => Some(&**src),
            None => None,
        }
    }

    /// How the error reads: the message, ` <line:column>` where the position is known, then
    /// a line break and how the source reads, where there is a source.
    pub fn to_string(&self) -> (s: String)
        ensures
            s@ == rendering(self.model()),
        decreases self,
    {
        let mut s = self.msg.clone();
        match self.pos {
            Some((line, column)) => {
                push_char(&mut s, ' ');
                push_char(&mut s, '<');
                push_decimal(&mut s, line);
                push_char(&mut s, ':');
                push_decimal(&mut s, column);
                push_char(&mut s, '>');
            },
            None => {},
        }
        match &self.src {
            Some(src) => {
                let text = src.to_string();
                push_char(&mut s, '\n');
                s.append(text.as_str());
            },
            None => {},
        }
        assert(s@ =~= rendering(self.model()));
        s
    }
}

} // verus!
