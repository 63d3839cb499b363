use vstd::prelude::*;

verus! {

/// A symbolic link met during the walk, recorded verbatim and never
/// followed: where it stood and what it pointed to.
#[derive(Debug, PartialEq, Eq)]
pub struct Symlink {
    pub from: String,
    pub to: String,
}

/// The mathematical value of a symbolic link record.
#[verifier::ext_equal]
pub ghost struct SymlinkView {
    pub from: Seq<char>,
    pub to: Seq<char>,
}

impl View for Symlink {
    type V = SymlinkView;

    open spec fn view(&self) -> SymlinkView {
        SymlinkView { from: self.from@, to: self.to@ }
    }
}

/// The values of a symlink vector.
pub open spec fn symlink_views(v: Seq<Symlink>) -> Seq<SymlinkView> {
    v.map_values(|s: Symlink| s@)
}

impl Symlink {
    pub fn new(from: String, to: String) -> (r: Symlink)
        ensures
            r.from@ == from@,
            r.to@ == to@,
    {
        Symlink { from, to }
    }
}

impl Clone for Symlink {
    fn clone(&self) -> (r: Self)
        ensures
            r == *self,
    {
        Symlink { from: self.from.clone(), to: self.to.clone() }
    }
}

} // verus!
