use vstd::prelude::*;

verus! {

/// What can go wrong when reading input, decoding stored lines, or touching the store.
#[derive(Debug, Clone, PartialEq, Eq)]
pub enum Error {
    /// An input item holds no `=`; carries the item.
    InvalidItem(String),
    /// An input key is none of the record's fields; carries the key.
    UnknownField(String),
    /// An input value holds the reserved separator `|`; carries the value.
    InvalidValue(String),
    /// A stored segment holds no `=`; carries the segment.
    MalformedSegment(String),
    /// The file system failed; carries its message.
    Io(String),
}

/// The mathematical counterpart of [`Error`].
pub enum ErrorView {
    InvalidItem(Seq<char>),
    UnknownField(Seq<char>),
    InvalidValue(Seq<char>),
    MalformedSegment(Seq<char>),
    Io(Seq<char>),
}

impl View for Error {
    type V = ErrorView;

    open spec fn view(&self) -> ErrorView {
        match self {
            Error::InvalidItem(s) => ErrorView::InvalidItem(s@),
            Error::UnknownField(s) => ErrorView::UnknownField(s@),
            Error::InvalidValue(s) => ErrorView::InvalidValue(s@),
            Error::MalformedSegment(s) => ErrorView::MalformedSegment(s@),
            Error::Io(s) => ErrorView::Io(s@),
        }
    }
}

/// The one-line message that reports an error.
pub open spec fn message_of(e: ErrorView) -> Seq<char> {
    match e {
        ErrorView::InvalidItem(s) => seq![
            'i', 'n', 'v', 'a', 'l', 'i', 'd', ' ', 'i', 't', 'e', 'm', ':', ' ',
        ] + s,
        ErrorView::UnknownField(s) => seq![
            'u', 'n', 'k', 'n', 'o', 'w', 'n', ' ', 'f', 'i', 'e', 'l', 'd', ':', ' ',
        ] + s,
        ErrorView::InvalidValue(_) => seq![
            'v', 'a', 'l', 'u', 'e', ' ', 'm', 'a', 'y', ' ', 'n', 'o', 't', ' ', 'c', 'o', 'n', 't',
            'a', 'i', 'n', ' ', '\'', '|', '\'',
        ],
        ErrorView::MalformedSegment(s) => seq!['b', 'a', 'd', ' ', 'p', 'a', 'r', 't', ':', ' '] + s,
        ErrorView::Io(s) => s,
    }
}

impl Error {
    /// The one-line message that reports this error.
    pub fn message(&self) -> (r: String)
        ensures
            r@ == message_of(self@),
    {
        proof {
            reveal_strlit("invalid item: ");
            reveal_strlit("unknown field: ");
            reveal_strlit("value may not contain '|'");
            reveal_strlit("bad part: ");
        }
        match self {
            Error::InvalidItem(s) => {
                let mut r = String::from_str("invalid item: ");
                r.append(s.as_str());
                assert(r@ =~= message_of(self@));
                r
            },
            Error::UnknownField(s) => {
                let mut r = String::from_str("unknown field: ");
                r.append(s.as_str());
                assert(r@ =~= message_of(self@));
                r
            },
            Error::InvalidValue(_) => {
                let r = String::from_str("value may not contain '|'");
                assert(r@ =~= message_of(self@));
                r
            },
            Error::MalformedSegment(s) => {
                let mut r = String::from_str("bad part: ");
                r.append(s.as_str());
                assert(r@ =~= message_of(self@));
                r
            },
            Error::Io(s) => s.clone(),
        }
    }
}

} // verus!
