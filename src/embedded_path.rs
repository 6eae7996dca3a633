//! Path metadata of one embedded entry.
use crate::text::{chars_of, lemma_rfind_bounds, rfind, rfind_chars};
use vstd::prelude::*;
use vstd::string::*;

verus! {

/// The final slash-delimited component of a relative path.
pub open spec fn last_component(p: Seq<char>) -> Seq<char> {
    p.subrange(rfind(p, '/') + 1, p.len() as int)
}

/// A file name without its last extension. A name with no dot, a name whose
/// only dot leads it (`.gitignore`) and `..` are their own stem.
pub open spec fn stem_of(name: Seq<char>) -> Seq<char> {
    if name == seq!['.', '.'] || rfind(name, '.') <= 0 {
        name
    } else {
        name.subrange(0, rfind(name, '.'))
    }
}

#[verifier::external_type_specification]
#[verifier::external_body]
pub struct ExPath(std::path::Path);

/// The path that `std::path::Path::new` makes of a text.
pub uninterp spec fn path_named(s: Seq<char>) -> &'static std::path::Path;

/// Relies on `std::path::Path::new`: wraps the text of a `str` as a path
/// without copying it, so the path depends on the text alone.
#[verifier::external_body]
fn path_of(s: &'static str) -> (r: &'static std::path::Path)
    ensures
        r == path_named(s@),
{
    std::path::Path::new(s)
}

/// The path of an embedded entry: its path relative to the embedding root,
/// its final component and that component's stem.
#[derive(Debug, Clone, Copy, PartialEq, Eq)]
pub struct EmbeddedPath {
    relative_path: &'static str,
    name: &'static str,
    stem: &'static str,
}

impl EmbeddedPath {
    pub closed spec fn spec_relative_path(&self) -> Seq<char> {
        self.relative_path@
    }

    pub closed spec fn spec_name(&self) -> Seq<char> {
        self.name@
    }

    pub closed spec fn spec_stem(&self) -> Seq<char> {
        self.stem@
    }

    /// The three parts agree: the name is the last component of the relative
    /// path and the stem is the name without its last extension.
    pub open spec fn consistent(&self) -> bool {
        &&& self.spec_name() == last_component(self.spec_relative_path())
        &&& self.spec_stem() == stem_of(self.spec_name())
    }

    /// Builds the value from three parts split beforehand by the caller.
    pub fn new(relative_path: &'static str, name: &'static str, stem: &'static str) -> (r: Self)
        ensures
            r.spec_relative_path() == relative_path@,
            r.spec_name() == name@,
            r.spec_stem() == stem@,
    {
        EmbeddedPath { relative_path, name, stem }
    }

    /// Splits a relative path into its name and stem.
    pub fn from_relative_path(relative_path: &'static str) -> (r: Self)
        ensures
            r.spec_relative_path() == relative_path@,
            r.consistent(),
    {
        let chars = chars_of(relative_path);
        let n = chars.len();
        let start = rfind_chars(&chars, '/');
        proof {
            lemma_rfind_bounds(relative_path@, '/');
        }
        let name = relative_path.substring_char(start, n);
        let k = stem_len(&chars_of(name));
        let stem = name.substring_char(0, k);
        EmbeddedPath { relative_path, name, stem }
    }

    /// The path relative to the embedding root.
    pub fn relative_path(&self) -> (r: &'static std::path::Path)
        ensures
            r == path_named(self.spec_relative_path()),
    {
        path_of(self.relative_path)
    }

    /// The path relative to the embedding root, as text.
    pub fn relative_path_str(&self) -> (r: &'static str)
        ensures
            r@ == self.spec_relative_path(),
    {
        self.relative_path
    }

    /// The final component of the relative path.
    pub fn name(&self) -> (r: &'static str)
        ensures
            r@ == self.spec_name(),
    {
        self.name
    }

    /// The name without its last extension.
    pub fn stem(&self) -> (r: &'static str)
        ensures
            r@ == self.spec_stem(),
    {
        self.stem
    }

    /// The display form: exactly the relative path.
    pub fn to_string(&self) -> (r: String)
        ensures
            r@ == self.spec_relative_path(),
    {
        String::from_str(self.relative_path)
    }
}

/// The length of the stem of `name`, which is a prefix of it.
pub fn stem_len(name: &Vec<char>) -> (r: usize)
    ensures
        r <= name@.len(),
        stem_of(name@) == name@.subrange(0, r as int),
{
    let d = rfind_chars(name, '.');
    let dotdot = name.len() == 2 && name[0] == '.' && name[1] == '.';
    proof {
        lemma_rfind_bounds(name@, '.');
        if dotdot {
            assert(name@ =~= seq!['.', '.']);
        }
        if name@ == seq!['.', '.'] {
            assert(name@[0] == '.' && name@[1] == '.');
        }
    }
    if dotdot || d <= 1 {
        assert(name@.subrange(0, name@.len() as int) =~= name@);
        name.len()
    } else {
        d - 1
    }
}

/// Every path built by splitting has a name equal to its last
/// slash-delimited component and a stem equal to that name without its last
/// extension, or to the name itself when it has none.
pub proof fn lemma_split_parts_agree(p: EmbeddedPath)
    requires
        p.consistent(),
    ensures
        p.spec_name() == last_component(p.spec_relative_path()),
        !p.spec_name().contains('/'),
        p.spec_stem() == p.spec_name() || (exists|ext: Seq<char>|
            p.spec_name() == p.spec_stem() + seq!['.'] + ext && !ext.contains('.')),
{
    let rp = p.spec_relative_path();
    let name = p.spec_name();
    lemma_rfind_bounds(rp, '/');
    assert forall|i: int| 0 <= i < name.len() implies name[i] != '/' by {
        assert(name[i] == rp[rfind(rp, '/') + 1 + i]);
    }
    if p.spec_stem() != name {
        lemma_rfind_bounds(name, '.');
        let d = rfind(name, '.');
        let ext = name.subrange(d + 1, name.len() as int);
        assert(name =~= p.spec_stem() + seq!['.'] + ext);
        assert forall|i: int| 0 <= i < ext.len() implies ext[i] != '.' by {
            assert(ext[i] == name[d + 1 + i]);
        }
        assert(name == p.spec_stem() + seq!['.'] + ext && !ext.contains('.'));
    }
}

} // verus!
