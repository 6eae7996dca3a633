//! The two kinds of entry: directories, which hold children, and files.
use crate::ident::is_ascii_ident;
use vstd::prelude::*;

verus! {

#[verifier::external_type_specification]
#[verifier::external_body]
pub struct ExIdent(proc_macro2::Ident);

/// The text of an identifier token, as its `Display` writes it.
pub uninterp spec fn ident_text(i: proc_macro2::Ident) -> Seq<char>;

/// Relies on `proc_macro2::Ident::new`, which panics unless its text is a
/// keyword or a legal variable name: a leading letter or `_`, then letters,
/// digits or `_`, not all digits. ASCII text of that shape is accepted, and
/// the token keeps the text as its symbol.
#[verifier::external_body]
fn new_ident(s: &str) -> (r: proc_macro2::Ident)
    requires
        is_ascii_ident(s@),
    ensures
        ident_text(r) == s@,
{
    proc_macro2::Ident::new(s, proc_macro2::Span::call_site())
}

/// Whether an entry is a directory or a file.
#[derive(Debug, Clone, Copy, PartialEq, Eq, Structural)]
pub enum EntryKind {
    Dir,
    File,
}

/// The marker token naming each kind in generated declarations.
pub open spec fn kind_tag(k: EntryKind) -> Seq<char> {
    match k {
        EntryKind::Dir => seq!['D', 'i', 'r'],
        EntryKind::File => seq!['F', 'i', 'l', 'e'],
    }
}

impl EntryKind {
    /// The marker token of this kind, as text.
    pub fn tag(&self) -> (r: &'static str)
        ensures
            r@ == kind_tag(*self),
    {
        match self {
            EntryKind::Dir => {
                proof {
                    reveal_strlit("Dir");
                }
                "Dir"
            },
            EntryKind::File => {
                proof {
                    reveal_strlit("File");
                }
                "File"
            },
        }
    }

    /// The marker token of this kind, as an identifier token.
    pub fn ident(&self) -> (r: proc_macro2::Ident)
        ensures
            ident_text(r) == kind_tag(*self),
    {
        let t = self.tag();
        proof {
            assert(is_ascii_ident(t@));
        }
        new_ident(t)
    }
}

} // verus!
