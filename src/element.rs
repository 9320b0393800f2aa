use vstd::prelude::*;

verus! {

/// One element of a terminal output stream.
#[derive(Debug, PartialEq, Eq)]
pub enum AnsiElement {
    /// A run of literal text, holding no escape byte.
    Text(String),
    /// A control sequence: its numeric parameters, the intermediate bytes
    /// (0x20..=0x2F) that precede the final byte, and whether the private
    /// marker `?` was present.
    Csi { params: Vec<i32>, intermediates: Vec<u8>, ignore: bool },
    /// An operating system command: its `;`-separated arguments.
    Osc(Vec<Vec<u8>>),
    /// Any other escape sequence: the bytes after ESC, final byte included.
    Esc(Vec<u8>),
}

/// Why a buffer could not be parsed.
#[derive(Debug, Clone, Copy, PartialEq, Eq, Structural)]
pub enum AnsiError {
    /// The buffer ends inside a sequence.
    Incomplete,
    /// This byte stands where the grammar forbids it.
    InvalidChar(u8),
}

/// The mathematical value of an [`AnsiElement`].
pub enum ElementView {
    Text(Seq<char>),
    Csi { params: Seq<i32>, intermediates: Seq<u8>, ignore: bool },
    Osc(Seq<Seq<u8>>),
    Esc(Seq<u8>),
}

/// The contents of a list of byte vectors.
pub open spec fn byte_strings(v: Seq<Vec<u8>>) -> Seq<Seq<u8>> {
    v.map_values(|a: Vec<u8>| a@)
}

/// The values of a list of elements.
pub open spec fn views(v: Seq<AnsiElement>) -> Seq<ElementView> {
    v.map_values(|e: AnsiElement| e@)
}

impl View for AnsiElement {
    type V = ElementView;

    open spec fn view(&self) -> ElementView {
        match self {
            AnsiElement::Text(t) => ElementView::Text(t@),
            AnsiElement::Csi { params, intermediates, ignore } => ElementView::Csi {
                params: params@,
                intermediates: intermediates@,
                ignore: *ignore,
            },
            AnsiElement::Osc(args) => ElementView::Osc(byte_strings(args@)),
            AnsiElement::Esc(bytes) => ElementView::Esc(bytes@),
        }
    }
}

} // verus!
