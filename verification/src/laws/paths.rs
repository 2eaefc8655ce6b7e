//! Laws of paths.

use vstd::prelude::*;

use crate::paths::{
    absolute, beneath, joined, name_of, parent_of, parts, shown_path, stripped, Part,
};
use crate::text::{ends, starts};

verus! {

/// A path that is joined to a base stands behind it, with one slash between
/// them; an absolute one stands alone.
pub proof fn joined_paths_stand_behind_their_base(base: Seq<char>, path: Seq<char>)
    ensures
        absolute(path) ==> joined(base, path) == path,
        !absolute(path) ==> {
            let all = joined(base, path);
            &&& starts(all, base)
            &&& ends(all, path)
            &&& base.len() > 0 ==> all[all.len() - path.len() - 1] == '/'
            &&& base.len() == 0 ==> all == path
            &&& base.len() > 0 && base.last() == '/' ==> all.len() == base.len() + path.len()
            &&& base.len() > 0 && base.last() != '/' ==> all.len() == base.len() + path.len() + 1
        },
        absolute(base) ==> absolute(joined(base, path)),
{
    reveal_strlit("/");
    if !absolute(path) {
        let all = joined(base, path);
        assert(all.take(base.len() as int) =~= base);
        assert(all.skip(all.len() - path.len()) =~= path);
    }
}

/// A path lies beneath another where it starts with all of its components.
pub proof fn paths_lie_beneath_what_they_start_with(base: Seq<Part>, rest: Seq<Part>, path: Seq<Part>)
    ensures
        beneath(base + rest, base),
        beneath(path, base) ==> path == base + path.skip(base.len() as int),
        beneath(path, Seq::empty()),
{
    assert((base + rest).take(base.len() as int) =~= base);
    if beneath(path, base) {
        assert(path =~= path.take(base.len() as int) + path.skip(base.len() as int));
    }
    assert(path.take(0) =~= Seq::<Part>::empty());
}

/// The name of a path is its last component, and the directory it lies in has
/// all the others.
pub proof fn names_are_last_components(front: Seq<Part>, name: Seq<char>)
    ensures
        name_of(front.push(Part::Normal(name))) == Some(name),
        parent_of(front.push(Part::Normal(name))) == Some(front),
        name_of(front.push(Part::Parent)) is None,
        parent_of(Seq::empty()) is None,
        parent_of(seq![Part::Root]) is None,
{
    assert(front.push(Part::Normal(name)).drop_last() =~= front);
}

/// A path is shown as it is where it does not lie beneath the root, or where
/// there is none.
pub proof fn paths_outside_the_root_are_shown_whole(path: Seq<char>, root: Seq<char>)
    ensures
        shown_path(path, None) == path,
        !beneath(parts(path), parts(root)) ==> shown_path(path, Some(root)) == path,
        beneath(parts(path), parts(root)) <==> stripped(path, root) is Some,
{
}

} // verus!
