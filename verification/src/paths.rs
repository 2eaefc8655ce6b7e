//! Paths as texts: their components, and the order of components. On every host
//! a path of this library has slashes; `portable_path` makes one of what the
//! host takes a path of its own apart into.

use vstd::prelude::*;
use vstd::string::*;

use crate::text::{
    chars_of, comes_before, find_char, first_index, holds_char, lemma_first_index, lemma_precedes_strict,
    lemma_precedes_transitive, optional_text, pieces, precedes, same_text, split, string_of, texts,
};

verus! {

broadcast use vstd::string::group_string_axioms;

/// A component of a path.
pub enum Part {
    Root,
    Current,
    Parent,
    Normal(Seq<char>),
}

/// A component of a path, with its text.
#[derive(Clone, Debug, PartialEq, Eq)]
pub enum Component {
    RootDir,
    CurDir,
    ParentDir,
    Normal(String),
}

impl View for Component {
    type V = Part;

    open spec fn view(&self) -> Part {
        match *self {
            Component::RootDir => Part::Root,
            Component::CurDir => Part::Current,
            Component::ParentDir => Part::Parent,
            Component::Normal(name) => Part::Normal(name@),
        }
    }
}

/// The parts that a list of components stands for.
pub open spec fn part_list(list: Seq<Component>) -> Seq<Part> {
    Seq::new(list.len(), |i: int| list[i]@)
}

/// Whether a path starts at the root.
pub open spec fn absolute(path: Seq<char>) -> bool {
    path.len() > 0 && path[0] == '/'
}

/// What the text between two slashes stands for. An empty one stands for
/// nothing, and so does a dot unless it leads the path.
pub open spec fn part_of(piece: Seq<char>, leading: bool) -> Option<Part> {
    if piece.len() == 0 {
        None
    } else if piece == "."@ {
        if leading {
            Some(Part::Current)
        } else {
            None
        }
    } else if piece == ".."@ {
        Some(Part::Parent)
    } else {
        Some(Part::Normal(piece))
    }
}

/// What the pieces of a path stand for.
pub open spec fn parts_of(list: Seq<Seq<char>>) -> Seq<Part>
    decreases list.len(),
{
    if list.len() == 0 {
        Seq::empty()
    } else {
        match part_of(list.last(), list.len() == 1) {
            Some(part) => parts_of(list.drop_last()).push(part),
            None => parts_of(list.drop_last()),
        }
    }
}

/// The components of a path.
pub open spec fn parts(path: Seq<char>) -> Seq<Part> {
    if absolute(path) {
        seq![Part::Root] + parts_of(pieces(path, '/'))
    } else {
        parts_of(pieces(path, '/'))
    }
}

pub fn is_absolute(path: &str) -> (result: bool)
    ensures
        result == absolute(path@),
{
    path.unicode_len() > 0 && path.get_char(0) == '/'
}

/// The components of a path.
pub fn components(path: &str) -> (result: Vec<Component>)
    ensures
        part_list(result@) == parts(path@),
{
    let list = split(path, '/');
    let ghost all = pieces(path@, '/');
    let mut result: Vec<Component> = Vec::new();
    let ghost mut root: Seq<Part> = Seq::empty();
    if is_absolute(path) {
        result.push(Component::RootDir);
        proof {
            root = seq![Part::Root];
        }
    }
    let mut i: usize = 0;
    proof {
        assert(all.take(0) =~= Seq::<Seq<char>>::empty());
        assert(part_list(result@) =~= root + parts_of(all.take(0)));
    }
    while i < list.len()
        invariant
            i <= list@.len(),
            texts(list@) == all,
            part_list(result@) == root + parts_of(all.take(i as int)),
        decreases list@.len() - i,
    {
        let ghost before = result@;
        let piece = list[i].as_str();
        let ghost part = part_of(piece@, i == 0);
        proof {
            assert(all.take(i + 1).drop_last() =~= all.take(i as int));
            assert(all.take(i + 1).last() == piece@);
            reveal_strlit(".");
            reveal_strlit("..");
        }
        if piece.unicode_len() == 0 {
        } else if same_text(piece, ".") {
            if i == 0 {
                result.push(Component::CurDir);
            }
        } else if same_text(piece, "..") {
            result.push(Component::ParentDir);
        } else {
            result.push(Component::Normal(piece.to_string()));
        }
        proof {
            match part {
                Some(part) => {
                    assert(result@.len() == before.len() + 1);
                    assert(result@.last()@ == part);
                    assert(part_list(result@) =~= part_list(before).push(part));
                    assert(part_list(result@) =~= root + parts_of(all.take(i as int)).push(part));
                },
                None => {},
            }
        }
        i += 1;
    }
    assert(all.take(i as int) =~= all);
    assert(Seq::<Part>::empty() + parts_of(all) =~= parts_of(all));
    result
}

/// Whether one component comes before another: the root, the dot, two dots,
/// and the names in their order.
pub open spec fn part_precedes(a: Part, b: Part) -> bool {
    match (a, b) {
        (Part::Normal(left), Part::Normal(right)) => precedes(left, right),
        _ => part_rank(a) < part_rank(b),
    }
}

/// The place of a kind of component.
pub open spec fn part_rank(part: Part) -> int {
    match part {
        Part::Root => 0,
        Part::Current => 1,
        Part::Parent => 2,
        Part::Normal(_) => 3,
    }
}

/// The order of components is strict.
pub proof fn lemma_part_strict(a: Part, b: Part)
    ensures
        !(part_precedes(a, b) && part_precedes(b, a)),
        !part_precedes(a, a),
        a != b ==> part_precedes(a, b) || part_precedes(b, a),
{
    match (a, b) {
        (Part::Normal(left), Part::Normal(right)) => lemma_precedes_strict(left, right),
        _ => {},
    }
    match a {
        Part::Normal(left) => lemma_precedes_strict(left, left),
        _ => {},
    }
}

/// The order of components is transitive.
pub proof fn lemma_part_transitive(a: Part, b: Part, c: Part)
    requires
        part_precedes(a, b),
        part_precedes(b, c),
    ensures
        part_precedes(a, c),
{
    match (a, b, c) {
        (Part::Normal(left), Part::Normal(middle), Part::Normal(right)) => {
            lemma_precedes_transitive(left, middle, right)
        },
        _ => {},
    }
}

impl Component {
    fn rank(&self) -> (rank: u8)
        ensures
            rank == part_rank(self@),
    {
        match self {
            Component::RootDir => 0,
            Component::CurDir => 1,
            Component::ParentDir => 2,
            Component::Normal(_) => 3,
        }
    }

    /// Whether this component comes before another.
    pub fn comes_before(&self, other: &Component) -> (result: bool)
        ensures
            result == part_precedes(self@, other@),
    {
        match (self, other) {
            (Component::Normal(left), Component::Normal(right)) => comes_before(
                left.as_str(),
                right.as_str(),
            ),
            _ => self.rank() < other.rank(),
        }
    }

    /// Whether two components are the same.
    pub fn same(&self, other: &Component) -> (result: bool)
        ensures
            result == (self@ == other@),
    {
        match (self, other) {
            (Component::Normal(left), Component::Normal(right)) => same_text(
                left.as_str(),
                right.as_str(),
            ),
            _ => self.rank() == other.rank(),
        }
    }
}

/// Whether the first components of two paths are the same.
pub fn same_components(a: &Vec<Component>, b: &Vec<Component>, count: usize) -> (result: bool)
    requires
        count <= a@.len(),
        count <= b@.len(),
    ensures
        result == (part_list(a@).take(count as int) == part_list(b@).take(count as int)),
{
    let ghost left = part_list(a@);
    let ghost right = part_list(b@);
    let mut i: usize = 0;
    while i < count
        invariant
            i <= count <= a@.len(),
            count <= b@.len(),
            left == part_list(a@),
            right == part_list(b@),
            forall|k: int| 0 <= k < i ==> left[k] == right[k],
        decreases count - i,
    {
        assert(left[i as int] == a@[i as int]@ && right[i as int] == b@[i as int]@);
        if !a[i].same(&b[i]) {
            assert(left.take(count as int)[i as int] != right.take(count as int)[i as int]);
            return false;
        }
        i += 1;
    }
    assert(left.take(count as int) =~= right.take(count as int));
    true
}

/// Whether two paths have the same components.
pub fn same_path(a: &Vec<Component>, b: &Vec<Component>) -> (result: bool)
    ensures
        result == (part_list(a@) == part_list(b@)),
{
    proof {
        if a@.len() == b@.len() {
            assert(part_list(a@).take(a@.len() as int) =~= part_list(a@));
            assert(part_list(b@).take(a@.len() as int) =~= part_list(b@));
        } else {
            assert(part_list(a@).len() != part_list(b@).len());
        }
    }
    a.len() == b.len() && same_components(a, b, a.len())
}

/// Whether a path leads to another or beyond it.
pub open spec fn beneath(path: Seq<Part>, base: Seq<Part>) -> bool {
    base.len() <= path.len() && path.take(base.len() as int) == base
}

/// Whether a path lies in a directory, or is that directory.
pub fn path_starts_with(path: &str, base: &str) -> (result: bool)
    ensures
        result == beneath(parts(path@), parts(base@)),
{
    let whole = components(path);
    let front = components(base);
    assert(part_list(front@).take(front@.len() as int) =~= part_list(front@));
    front.len() <= whole.len() && same_components(&whole, &front, front.len())
}

/// The components of the directory that holds a path.
pub open spec fn parent_of(path: Seq<Part>) -> Option<Seq<Part>> {
    if path.len() == 0 || path.last() is Root {
        None
    } else {
        Some(path.drop_last())
    }
}

/// The name at the end of a path.
pub open spec fn name_of(path: Seq<Part>) -> Option<Seq<char>> {
    if path.len() == 0 {
        None
    } else {
        match path.last() {
            Part::Normal(name) => Some(name),
            _ => None,
        }
    }
}

/// The name at the end of a path.
pub fn file_name(path: &Vec<Component>) -> (name: Option<String>)
    ensures
        match name {
            Some(name) => name_of(part_list(path@)) == Some(name@),
            None => name_of(part_list(path@)) is None,
        },
{
    if path.len() == 0 {
        return None;
    }
    assert(part_list(path@).last() == path@[path@.len() - 1]@);
    match &path[path.len() - 1] {
        Component::Normal(name) => Some(name.clone()),
        _ => None,
    }
}

/// A path taken from a directory: an absolute one stands for itself.
pub open spec fn joined(base: Seq<char>, path: Seq<char>) -> Seq<char> {
    if absolute(path) {
        path
    } else if base.len() == 0 || base.last() == '/' {
        base + path
    } else {
        base + "/"@ + path
    }
}

/// Takes a path from a directory.
pub fn join(base: &str, path: &str) -> (result: String)
    ensures
        result@ == joined(base@, path@),
{
    if is_absolute(path) {
        return path.to_string();
    }
    let mut result = base.to_string();
    let count: usize = base.unicode_len();
    if count > 0 && base.get_char(count - 1) != '/' {
        result.append("/");
    }
    result.append(path);
    result
}

/// The index of the last `c` in `s`, or none.
pub open spec fn last_index(s: Seq<char>, c: char) -> Option<int>
    decreases s.len(),
{
    if s.len() == 0 {
        None
    } else if s.last() == c {
        Some(s.len() - 1)
    } else {
        last_index(s.drop_last(), c)
    }
}

proof fn lemma_last_index(s: Seq<char>, c: char)
    ensures
        last_index(s, c) matches Some(i) ==> 0 <= i < s.len() && s[i] == c,
    decreases s.len(),
{
    if s.len() > 0 && s.last() != c {
        lemma_last_index(s.drop_last(), c);
    }
}

/// A relative path without what stands for nothing at its end.
pub open spec fn without_tail(path: Seq<char>) -> Seq<char>
    decreases path.len(),
    via without_tail_end
{
    match last_index(path, '/') {
        Some(i) => {
            let piece = path.skip(i + 1);
            if piece.len() == 0 || piece == "."@ {
                without_tail(path.take(i))
            } else {
                path
            }
        },
        None => path,
    }
}

#[via_fn]
proof fn without_tail_end(path: Seq<char>) {
    lemma_last_index(path, '/');
}

/// The path of the directory that holds a relative path.
pub open spec fn parent_text(path: Seq<char>) -> Seq<char> {
    let own = without_tail(path);
    match last_index(own, '/') {
        Some(i) => without_tail(own.take(i)),
        None => Seq::empty(),
    }
}

fn find_last(chars: &Vec<char>, end: usize, c: char) -> (index: Option<usize>)
    requires
        end <= chars@.len(),
    ensures
        match index {
            Some(i) => i < end && last_index(chars@.take(end as int), c) == Some(i as int),
            None => last_index(chars@.take(end as int), c) is None,
        },
{
    let mut at: usize = end;
    while at > 0
        invariant
            at <= end <= chars@.len(),
            last_index(chars@.take(end as int), c) == last_index(chars@.take(at as int), c),
        decreases at,
    {
        assert(chars@.take(at as int).drop_last() =~= chars@.take(at - 1));
        if chars[at - 1] == c {
            return Some(at - 1);
        }
        at -= 1;
    }
    None
}

fn tail_start(chars: &Vec<char>, from: usize) -> (end: usize)
    requires
        from <= chars@.len(),
    ensures
        end <= from,
        chars@.take(end as int) == without_tail(chars@.take(from as int)),
{
    let mut end: usize = from;
    loop
        invariant
            end <= from <= chars@.len(),
            without_tail(chars@.take(end as int)) == without_tail(chars@.take(from as int)),
        decreases end,
    {
        let ghost path = chars@.take(end as int);
        match find_last(chars, end, '/') {
            Some(i) => {
                let ghost piece = path.skip(i + 1);
                proof {
                    reveal_strlit(".");
                    if end == i + 2 {
                        assert(piece[0] == chars@[i + 1]);
                        if chars@[i + 1] == '.' {
                            assert(piece =~= "."@);
                        }
                    }
                    assert(path.take(i as int) =~= chars@.take(i as int));
                }
                if end == i + 1 || end == i + 2 && chars[i + 1] == '.' {
                    end = i;
                } else {
                    return end;
                }
            },
            None => {
                return end;
            },
        }
    }
}

/// The path of the directory that holds a relative path.
pub fn parent_path(path: &str) -> (parent: String)
    ensures
        parent@ == parent_text(path@),
{
    let chars = chars_of(path);
    assert(chars@.take(chars@.len() as int) =~= path@);
    let own: usize = tail_start(&chars, chars.len());
    match find_last(&chars, own, '/') {
        Some(i) => {
            assert(chars@.take(own as int).take(i as int) =~= chars@.take(i as int));
            let end: usize = tail_start(&chars, i);
            let parent = string_of(&chars, 0, end);
            assert(parent@ =~= chars@.take(end as int));
            parent
        },
        None => {
            let parent = String::new();
            assert(parent@ =~= Seq::<char>::empty());
            parent
        },
    }
}

/// A text without what stands for nothing at its front.
pub open spec fn without_head(path: Seq<char>) -> Seq<char>
    decreases path.len(),
{
    if path.len() == 0 {
        path
    } else if path[0] == '/' || path[0] == '.' && (path.len() == 1 || path[1] == '/') {
        without_head(path.skip(1))
    } else {
        path
    }
}

/// What stands behind the first names of a path.
pub open spec fn behind(path: Seq<char>, names: nat) -> Seq<char>
    decreases names,
{
    let own = without_head(path);
    if names == 0 {
        own
    } else {
        behind(own.skip(first_index(own, '/')), (names - 1) as nat)
    }
}

/// How many components are names or two dots.
pub open spec fn name_count(path: Seq<Part>) -> nat
    decreases path.len(),
{
    if path.len() == 0 {
        0
    } else if path.last() is Root || path.last() is Current {
        name_count(path.drop_last())
    } else {
        name_count(path.drop_last()) + 1
    }
}

/// A path without what stands for nothing at its end.
pub open spec fn trimmed_path(path: Seq<char>) -> Seq<char> {
    if absolute(path) {
        seq!['/'] + without_tail(path.skip(1))
    } else {
        without_tail(path)
    }
}

/// A path as seen from a directory that holds it.
pub open spec fn stripped(path: Seq<char>, base: Seq<char>) -> Option<Seq<char>> {
    if !beneath(parts(path), parts(base)) {
        None
    } else if parts(base).len() == 0 {
        Some(trimmed_path(path))
    } else {
        Some(without_tail(behind(path, name_count(parts(base)))))
    }
}

fn head_end(chars: &Vec<char>, from: usize) -> (start: usize)
    requires
        from <= chars@.len(),
    ensures
        from <= start <= chars@.len(),
        chars@.skip(start as int) == without_head(chars@.skip(from as int)),
{
    let total: usize = chars.len();
    let mut at: usize = from;
    while at < total && (chars[at] == '/' || chars[at] == '.' && (at == total - 1 || chars[at + 1]
        == '/'))
        invariant
            from <= at <= total,
            total == chars@.len(),
            without_head(chars@.skip(at as int)) == without_head(chars@.skip(from as int)),
        decreases total - at,
    {
        assert(chars@.skip(at as int).skip(1) =~= chars@.skip(at + 1));
        at += 1;
    }
    at
}

fn behind_names(chars: &Vec<char>, names: usize) -> (start: usize)
    ensures
        start <= chars@.len(),
        chars@.skip(start as int) == behind(chars@, names as nat),
{
    let mut at: usize = 0;
    let mut left: usize = names;
    assert(chars@.skip(0) =~= chars@);
    while left > 0
        invariant
            at <= chars@.len(),
            behind(chars@.skip(at as int), left as nat) == behind(chars@, names as nat),
        decreases left,
    {
        let start: usize = head_end(chars, at);
        let ghost own = chars@.skip(start as int);
        let end: usize = find_char(chars, start, '/');
        assert(own.skip(first_index(own, '/')) =~= chars@.skip(end as int));
        at = end;
        left -= 1;
    }
    head_end(chars, at)
}

fn count_names(path: &Vec<Component>) -> (count: usize)
    ensures
        count == name_count(part_list(path@)),
        count <= path@.len(),
{
    let ghost all = part_list(path@);
    let mut count: usize = 0;
    let mut i: usize = 0;
    while i < path.len()
        invariant
            i <= path@.len(),
            all == part_list(path@),
            count == name_count(all.take(i as int)),
            count <= i,
        decreases path@.len() - i,
    {
        proof {
            assert(all.take(i + 1).drop_last() =~= all.take(i as int));
            assert(all.take(i + 1).last() == path@[i as int]@);
        }
        match &path[i] {
            Component::RootDir | Component::CurDir => {},
            _ => {
                count += 1;
            },
        }
        i += 1;
    }
    assert(all.take(i as int) =~= all);
    count
}

fn tail_text(chars: &Vec<char>, from: usize) -> (text: String)
    requires
        from <= chars@.len(),
    ensures
        text@ == without_tail(chars@.skip(from as int)),
{
    let rest = chars_of(string_of(chars, from, chars.len()).as_str());
    assert(rest@ =~= chars@.skip(from as int));
    assert(rest@.take(rest@.len() as int) =~= rest@);
    let end: usize = tail_start(&rest, rest.len());
    let text = string_of(&rest, 0, end);
    assert(text@ =~= rest@.take(end as int));
    text
}

/// A path as seen from a directory that holds it.
pub fn strip_prefix(path: &str, base: &str) -> (result: Option<String>)
    ensures
        match result {
            Some(rest) => stripped(path@, base@) == Some(rest@),
            None => stripped(path@, base@) is None,
        },
{
    if !path_starts_with(path, base) {
        return None;
    }
    let chars = chars_of(path);
    let front = components(base);
    if front.len() == 0 {
        if is_absolute(path) {
            let mut text = "/".to_string();
            let rest = tail_text(&chars, 1);
            proof {
                reveal_strlit("/");
                assert("/"@ =~= seq!['/']);
            }
            text.append(rest.as_str());
            return Some(text);
        }
        assert(chars@.skip(0) =~= chars@);
        return Some(tail_text(&chars, 0));
    }
    let start: usize = behind_names(&chars, count_names(&front));
    Some(tail_text(&chars, start))
}

/// A path as it is shown: as seen from a directory, where that holds it.
pub open spec fn shown_path(path: Seq<char>, root: Option<Seq<char>>) -> Seq<char> {
    match root {
        Some(root) => match stripped(path, root) {
            Some(rest) => rest,
            None => path,
        },
        None => path,
    }
}

/// A path as it is shown: as seen from a directory, where that holds it.
pub fn show_path(path: &str, root: &Option<String>) -> (shown: String)
    ensures
        shown@ == shown_path(path@, optional_text(*root)),
{
    match root {
        Some(root) => match strip_prefix(path, root.as_str()) {
            Some(rest) => rest,
            None => path.to_string(),
        },
        None => path.to_string(),
    }
}

/// The path of the directory that holds a path.
pub open spec fn directory_of(path: Seq<char>) -> Option<Seq<char>> {
    if parent_of(parts(path)) is None {
        None
    } else if absolute(path) {
        Some(seq!['/'] + parent_text(path.skip(1)))
    } else {
        Some(parent_text(path))
    }
}

/// The path of the directory that holds a path.
pub fn directory(path: &str) -> (result: Option<String>)
    ensures
        match result {
            Some(directory) => directory_of(path@) == Some(directory@),
            None => directory_of(path@) is None,
        },
{
    let list = components(path);
    if list.len() == 0 {
        return None;
    }
    assert(parts(path@).last() == list@.last()@);
    if let Component::RootDir = &list[list.len() - 1] {
        return None;
    }
    if is_absolute(path) {
        let chars = chars_of(path);
        let rest = string_of(&chars, 1, chars.len());
        assert(rest@ =~= path@.skip(1));
        let mut text = "/".to_string();
        proof {
            reveal_strlit("/");
            assert("/"@ =~= seq!['/']);
        }
        text.append(parent_path(rest.as_str()).as_str());
        Some(text)
    } else {
        Some(parent_path(path))
    }
}

/// Nothing behind the last `c` is one.
proof fn lemma_last_index_is_last(s: Seq<char>, c: char)
    ensures
        match last_index(s, c) {
            Some(i) => 0 <= i < s.len() && s[i] == c && forall|k: int| i < k < s.len() ==> s[k] != c,
            None => forall|k: int| 0 <= k < s.len() ==> s[k] != c,
        },
    decreases s.len(),
{
    if s.len() > 0 && s.last() != c {
        let rest = s.drop_last();
        lemma_last_index_is_last(rest, c);
        assert forall|k: int| 0 <= k < rest.len() implies rest[k] == s[k] by {}
    }
}

/// The last piece of a text stands behind its last separator.
proof fn lemma_last_piece(s: Seq<char>, c: char)
    ensures
        match last_index(s, c) {
            Some(i) => pieces(s, c) == pieces(s.take(i), c).push(s.skip(i + 1)),
            None => pieces(s, c) == seq![s],
        },
        pieces(s, c).len() > 0,
    decreases s.len(),
{
    let f = first_index(s, c);
    lemma_first_index(s, c);
    lemma_last_index_is_last(s, c);
    if f < s.len() {
        let rest = s.skip(f + 1);
        lemma_last_piece(rest, c);
        lemma_last_index_is_last(rest, c);
        let i = last_index(s, c)->0;
        let front = s.take(i);
        lemma_first_index(front, c);
        assert forall|k: int| 0 <= k < rest.len() implies rest[k] == s[f + 1 + k] by {}
        if i == f {
            assert(last_index(rest, c) is None);
            assert(first_index(front, c) == front.len()) by {
                if first_index(front, c) < front.len() {
                    assert(front[first_index(front, c)] == s[first_index(front, c)]);
                }
            }
            assert(pieces(front, c) == seq![front]);
        } else {
            let j = i - f - 1;
            assert(rest[j] == c);
            assert(last_index(rest, c) == Some(j));
            assert(front[f] == c);
            assert(first_index(front, c) == f) by {
                if first_index(front, c) < f {
                    assert(front[first_index(front, c)] == s[first_index(front, c)]);
                }
            }
            assert(front.take(f) =~= s.take(f));
            assert(front.skip(f + 1) =~= rest.take(j));
            assert(rest.skip(j + 1) =~= s.skip(i + 1));
        }
        assert(pieces(s, c) =~= pieces(front, c).push(s.skip(i + 1)));
    }
}

/// A path without what stands for nothing at its end is the front of it, and
/// stands for the same.
proof fn lemma_without_tail(front: Seq<Seq<char>>, path: Seq<char>)
    ensures
        parts_of(front + pieces(without_tail(path), '/')) == parts_of(front + pieces(path, '/')),
        without_tail(path).len() <= path.len(),
        without_tail(path) == path.take(without_tail(path).len() as int),
        last_index(without_tail(path), '/') matches Some(i) ==> without_tail(path).skip(i + 1).len()
            > 0 && without_tail(path).skip(i + 1) != "."@,
    decreases path.len(),
{
    lemma_last_piece(path, '/');
    lemma_last_index(path, '/');
    assert(path.take(path.len() as int) =~= path);
    if let Some(i) = last_index(path, '/') {
        let piece = path.skip(i + 1);
        if piece.len() == 0 || piece == "."@ {
            let rest = path.take(i);
            lemma_without_tail(front, rest);
            lemma_last_piece(rest, '/');
            let list = front + pieces(path, '/');
            assert(list.drop_last() =~= front + pieces(rest, '/'));
            assert(list.last() == piece);
            assert(rest.take(without_tail(rest).len() as int) =~= path.take(
                without_tail(rest).len() as int,
            ));
        }
    }
}

proof fn lemma_parent_text(front: Seq<Seq<char>>, path: Seq<char>)
    requires
        front.len() == 0 || front == seq![Seq::<char>::empty()],
        parts_of(front + pieces(path, '/')).len() > 0,
    ensures
        parts_of(front + pieces(parent_text(path), '/')) == parts_of(
            front + pieces(path, '/'),
        ).drop_last(),
        parent_text(path).len() <= path.len(),
        parent_text(path) == path.take(parent_text(path).len() as int),
{
    let own = without_tail(path);
    lemma_without_tail(front, path);
    lemma_last_piece(own, '/');
    lemma_last_index(own, '/');
    let list = front + pieces(own, '/');
    if let Some(i) = last_index(own, '/') {
        let above = own.take(i);
        lemma_without_tail(front, above);
        lemma_last_piece(above, '/');
        assert(list.drop_last() =~= front + pieces(above, '/'));
        assert(list.last() == own.skip(i + 1));
        assert(parts_of(list).drop_last() =~= parts_of(list.drop_last()));
        assert(parent_text(path) =~= path.take(parent_text(path).len() as int));
    } else {
        let none = Seq::<char>::empty();
        lemma_last_piece(none, '/');
        assert(pieces(none, '/') == seq![none]);
        assert(list.drop_last() =~= front);
        reveal_with_fuel(parts_of, 3);
        assert((front + seq![none]).drop_last() =~= front);
        if front.len() > 0 {
            assert(front.drop_last() =~= Seq::<Seq<char>>::empty());
        }
        assert(parts_of(front) =~= Seq::<Part>::empty());
        assert(parts_of(front + seq![none]) =~= Seq::<Part>::empty());
        assert(parts_of(list).drop_last() =~= Seq::<Part>::empty());
        assert(path.take(0) =~= none);
    }
}

/// The path of the directory that holds a path has the components of the path
/// but the last.
pub proof fn directories_lack_the_last_component(path: Seq<char>)
    ensures
        match directory_of(path) {
            Some(above) => parent_of(parts(path)) == Some(parts(above)),
            None => parent_of(parts(path)) is None,
        },
{
    if directory_of(path) is Some {
        let none = Seq::<char>::empty();
        if absolute(path) {
            let rest = path.skip(1);
            let front = seq![none];
            lemma_rooted_pieces(path);
            assert(parts(path) == seq![Part::Root] + parts_of(front + pieces(rest, '/')));
            let list = parts_of(front + pieces(rest, '/'));
            if list.len() == 0 {
                assert(parts(path).last() is Root);
            }
            lemma_parent_text(front, rest);
            let above = seq!['/'] + parent_text(rest);
            lemma_rooted_pieces(above);
            assert(above.skip(1) =~= parent_text(rest));
            assert(parts(path).drop_last() =~= seq![Part::Root] + list.drop_last());
        } else {
            let front = Seq::<Seq<char>>::empty();
            assert(front + pieces(path, '/') =~= pieces(path, '/'));
            lemma_parent_text(front, path);
            let above = parent_text(path);
            assert(front + pieces(above, '/') =~= pieces(above, '/'));
            if above.len() > 0 {
                assert(above[0] == path[0]);
            }
        }
    }
}

proof fn lemma_rooted_pieces(path: Seq<char>)
    requires
        absolute(path),
    ensures
        pieces(path, '/') == seq![Seq::<char>::empty()] + pieces(path.skip(1), '/'),
{
    assert(first_index(path, '/') == 0);
    assert(path.take(0) =~= Seq::<char>::empty());
}

/// A component of a path as the host splits it. A prefix is what may stand
/// before the root, such as a drive.
#[derive(Clone, Debug, PartialEq, Eq)]
pub enum HostPart {
    Prefix(String),
    Root,
    Current,
    Parent,
    Name(String),
}

/// The plain values of a [`HostPart`].
pub enum HostView {
    Prefix(Seq<char>),
    Root,
    Current,
    Parent,
    Name(Seq<char>),
}

impl View for HostPart {
    type V = HostView;

    open spec fn view(&self) -> HostView {
        match *self {
            HostPart::Prefix(text) => HostView::Prefix(text@),
            HostPart::Root => HostView::Root,
            HostPart::Current => HostView::Current,
            HostPart::Parent => HostView::Parent,
            HostPart::Name(name) => HostView::Name(name@),
        }
    }
}

/// The plain values of components as the host splits a path.
pub open spec fn host_views(list: Seq<HostPart>) -> Seq<HostView> {
    Seq::new(list.len(), |i: int| list[i]@)
}

/// Whether a text can stand between two slashes as a name.
pub open spec fn plain_piece(piece: Seq<char>) -> bool {
    piece.len() > 0 && piece != "."@ && piece != ".."@ && !piece.contains('/')
}

/// Whether a component of the host may stand at an index of a path. A prefix and
/// a root lead an absolute path, a dot leads another one.
pub open spec fn stands_at(part: HostView, index: int, absolute: bool) -> bool {
    match part {
        HostView::Prefix(text) => absolute && index == 0 && plain_piece(text),
        HostView::Root => absolute && index <= 1,
        HostView::Current => !absolute && index == 0,
        HostView::Parent => true,
        HostView::Name(name) => plain_piece(name),
    }
}

/// Whether each component of the host may stand where it does.
pub open spec fn well_placed(list: Seq<HostView>, absolute: bool) -> bool {
    forall|i: int| 0 <= i < list.len() ==> stands_at(#[trigger] list[i], i, absolute)
}

/// Whether a root leads the components, with no more than a prefix before it.
pub open spec fn rooted(list: Seq<HostView>) -> bool {
    list.len() > 0 && (list[0] is Root || list[0] is Prefix && list.len() > 1 && list[1] is Root)
}

/// Whether components of the host make a path with slashes.
pub open spec fn portable(list: Seq<HostView>, absolute: bool) -> bool {
    well_placed(list, absolute) && (absolute ==> rooted(list))
}

/// The texts of components between the slashes.
pub open spec fn host_pieces(list: Seq<HostView>) -> Seq<Seq<char>>
    decreases list.len(),
{
    if list.len() == 0 {
        Seq::empty()
    } else {
        let front = host_pieces(list.drop_last());
        match list.last() {
            HostView::Prefix(text) => front.push(text),
            HostView::Root => front,
            HostView::Current => front.push("."@),
            HostView::Parent => front.push(".."@),
            HostView::Name(name) => front.push(name),
        }
    }
}

/// Texts with slashes between them.
pub open spec fn slashed(list: Seq<Seq<char>>) -> Seq<char>
    decreases list.len(),
{
    if list.len() == 0 {
        Seq::empty()
    } else if list.len() == 1 {
        list[0]
    } else {
        slashed(list.drop_last()) + seq!['/'] + list.last()
    }
}

/// The path with slashes that components of the host make.
pub open spec fn portable_text(list: Seq<HostView>, absolute: bool) -> Seq<char> {
    if absolute {
        seq!['/'] + slashed(host_pieces(list))
    } else {
        slashed(host_pieces(list))
    }
}

/// What components of the host stand for behind the root.
pub open spec fn host_parts(list: Seq<HostView>) -> Seq<Part>
    decreases list.len(),
{
    if list.len() == 0 {
        Seq::empty()
    } else {
        let front = host_parts(list.drop_last());
        match list.last() {
            HostView::Prefix(text) => front.push(Part::Normal(text)),
            HostView::Root => front,
            HostView::Current => front.push(Part::Current),
            HostView::Parent => front.push(Part::Parent),
            HostView::Name(name) => front.push(Part::Normal(name)),
        }
    }
}

/// Whether a text can stand between two slashes as a name.
pub fn is_plain_piece(piece: &str) -> (result: bool)
    ensures
        result == plain_piece(piece@),
{
    piece.unicode_len() > 0 && !same_text(piece, ".") && !same_text(piece, "..") && !holds_char(
        piece,
        '/',
    )
}

fn may_stand(part: &HostPart, index: usize, absolute: bool) -> (result: bool)
    ensures
        result == stands_at(part@, index as int, absolute),
{
    match part {
        HostPart::Prefix(text) => absolute && index == 0 && is_plain_piece(text.as_str()),
        HostPart::Root => absolute && index <= 1,
        HostPart::Current => !absolute && index == 0,
        HostPart::Parent => true,
        HostPart::Name(name) => is_plain_piece(name.as_str()),
    }
}

fn is_rooted(list: &Vec<HostPart>) -> (result: bool)
    ensures
        result == rooted(host_views(list@)),
{
    if list.len() == 0 {
        return false;
    }
    assert(host_views(list@)[0] == list@[0]@);
    match &list[0] {
        HostPart::Root => true,
        HostPart::Prefix(_) => {
            if list.len() == 1 {
                return false;
            }
            assert(host_views(list@)[1] == list@[1]@);
            match &list[1] {
                HostPart::Root => true,
                _ => false,
            }
        },
        _ => false,
    }
}

/// The path with slashes that components of the host make, if they make one:
/// whatever separates names on the host, a path of this library has slashes.
pub fn portable_path(list: &Vec<HostPart>, absolute: bool) -> (path: Option<String>)
    ensures
        match path {
            Some(path) => portable(host_views(list@), absolute) && path@ == portable_text(
                host_views(list@),
                absolute,
            ),
            None => !portable(host_views(list@), absolute),
        },
{
    let ghost all = host_views(list@);
    if absolute && !is_rooted(list) {
        return None;
    }
    let mut path = if absolute {
        "/".to_string()
    } else {
        "".to_string()
    };
    proof {
        reveal_strlit("/");
        reveal_strlit("");
        assert("/"@ =~= seq!['/']);
        assert(""@ =~= Seq::<char>::empty());
    }
    let ghost lead = path@;
    assert(all.take(0) =~= Seq::<HostView>::empty());
    assert(path@ =~= lead + slashed(host_pieces(all.take(0))));
    let mut is_first = true;
    let mut i: usize = 0;
    while i < list.len()
        invariant
            i <= list@.len(),
            all == host_views(list@),
            absolute ==> rooted(all),
            lead == if absolute {
                seq!['/']
            } else {
                Seq::<char>::empty()
            },
            path@ == lead + slashed(host_pieces(all.take(i as int))),
            is_first == (host_pieces(all.take(i as int)).len() == 0),
            forall|k: int| 0 <= k < i ==> stands_at(#[trigger] all[k], k, absolute),
        decreases list@.len() - i,
    {
        let part = &list[i];
        assert(all[i as int] == part@);
        if !may_stand(part, i, absolute) {
            return None;
        }
        let ghost front = host_pieces(all.take(i as int));
        assert(all.take(i + 1).drop_last() =~= all.take(i as int));
        let piece: Option<&str> = match part {
            HostPart::Prefix(text) => Some(text.as_str()),
            HostPart::Root => None,
            HostPart::Current => Some("."),
            HostPart::Parent => Some(".."),
            HostPart::Name(name) => Some(name.as_str()),
        };
        if let Some(piece) = piece {
            let ghost before = path@;
            assert(front.push(piece@).drop_last() =~= front);
            if !is_first {
                path.append("/");
                proof {
                    reveal_strlit("/");
                    assert("/"@ =~= seq!['/']);
                }
            }
            path.append(piece);
            is_first = false;
            assert(path@ =~= lead + slashed(front.push(piece@)));
        }
        i += 1;
    }
    assert(all.take(i as int) =~= all);
    assert(path@ =~= portable_text(all, absolute));
    Some(path)
}

/// Pieces without slashes come out of the text that they make.
proof fn lemma_slashed_pieces(list: Seq<Seq<char>>)
    requires
        list.len() > 0,
        forall|i: int| 0 <= i < list.len() ==> !(#[trigger] list[i]).contains('/'),
    ensures
        pieces(slashed(list), '/') == list,
    decreases list.len(),
{
    let s = slashed(list);
    lemma_last_piece(s, '/');
    lemma_last_index_is_last(s, '/');
    if list.len() == 1 {
        if let Some(i) = last_index(s, '/') {
            assert(list[0].contains(s[i]));
        }
        assert(pieces(s, '/') =~= list);
    } else {
        let front = slashed(list.drop_last());
        let at = front.len() as int;
        assert forall|i: int| 0 <= i < list.drop_last().len() implies !(
        #[trigger] list.drop_last()[i]).contains('/') by {
            assert(list.drop_last()[i] == list[i]);
        }
        lemma_slashed_pieces(list.drop_last());
        assert(s[at] == '/');
        assert forall|k: int| at < k < s.len() implies s[k] != '/' by {
            assert(s[k] == list.last()[k - at - 1]);
            assert(!list[list.len() - 1].contains('/'));
        }
        assert(last_index(s, '/') == Some(at));
        assert(s.take(at) =~= front);
        assert(s.skip(at + 1) =~= list.last());
        assert(list.drop_last().push(list.last()) =~= list);
    }
}

/// The piece before the root, of which a path that starts there has an empty
/// one.
spec fn lead(absolute: bool) -> Seq<Seq<char>> {
    if absolute {
        seq![Seq::<char>::empty()]
    } else {
        Seq::empty()
    }
}

/// What the pieces of a path stand for.
proof fn lemma_host_parts(list: Seq<HostView>, absolute: bool)
    requires
        well_placed(list, absolute),
    ensures
        parts_of(lead(absolute) + host_pieces(list)) == host_parts(list),
        !absolute ==> host_pieces(list).len() == list.len(),
        forall|i: int|
            0 <= i < host_pieces(list).len() ==> (#[trigger] host_pieces(list)[i]).len() > 0
                && !host_pieces(list)[i].contains('/'),
    decreases list.len(),
{
    reveal_strlit(".");
    reveal_strlit("..");
    let all = lead(absolute) + host_pieces(list);
    if list.len() == 0 {
        if absolute {
            assert(all.drop_last() =~= Seq::<Seq<char>>::empty());
            assert(all.last().len() == 0);
            assert(part_of(all.last(), true) is None);
            assert(parts_of(all.drop_last()) =~= Seq::<Part>::empty());
        } else {
            assert(all =~= Seq::<Seq<char>>::empty());
        }
        assert(parts_of(all) =~= Seq::<Part>::empty());
    } else {
        let front = list.drop_last();
        assert forall|i: int| 0 <= i < front.len() implies stands_at(
            #[trigger] front[i],
            i,
            absolute,
        ) by {
            assert(front[i] == list[i]);
        }
        lemma_host_parts(front, absolute);
        assert(stands_at(list[list.len() - 1], list.len() - 1, absolute));
        if !(list.last() is Root) {
            let piece = host_pieces(list).last();
            assert(all.drop_last() =~= lead(absolute) + host_pieces(front));
            assert(all.last() == piece);
            assert("."@ =~= seq!['.']);
            assert(".."@ =~= seq!['.', '.']);
            assert("."@ != ".."@) by {
                assert("."@.len() != ".."@.len());
            }
            assert(!".."@.contains('/'));
            assert(!"."@.contains('/'));
            assert(host_pieces(list) =~= host_pieces(front).push(piece));
            assert(part_of(piece, all.len() == 1) == Some(host_parts(list).last()));
            assert(host_parts(list) =~= host_parts(front).push(host_parts(list).last()));
        }
    }
}

/// A path that the host's components make has these very components, and starts
/// at the root exactly where the host's does; a prefix is its first name.
pub proof fn portable_paths_keep_their_components(list: Seq<HostView>, absolute: bool)
    requires
        portable(list, absolute),
    ensures
        self::absolute(portable_text(list, absolute)) == absolute,
        parts(portable_text(list, absolute)) == if absolute {
            seq![Part::Root] + host_parts(list)
        } else {
            host_parts(list)
        },
{
    let own = host_pieces(list);
    let text = portable_text(list, absolute);
    lemma_host_parts(list, absolute);
    if own.len() == 0 {
        assert(slashed(own) =~= Seq::<char>::empty());
        assert(pieces(slashed(own), '/') =~= seq![Seq::<char>::empty()]);
        if absolute {
            assert(text.skip(1) =~= slashed(own));
            lemma_rooted_pieces(text);
            let two = seq![Seq::<char>::empty(), Seq::<char>::empty()];
            assert(pieces(text, '/') =~= two);
            assert(two.drop_last() =~= lead(absolute) + own);
            assert(two.last().len() == 0);
        } else {
            let one = seq![Seq::<char>::empty()];
            assert(one.drop_last() =~= lead(absolute) + own);
            assert(one.last().len() == 0);
        }
    } else {
        lemma_slashed_pieces(own);
        if absolute {
            assert(text.skip(1) =~= slashed(own));
            lemma_rooted_pieces(text);
            assert(pieces(text, '/') =~= lead(absolute) + own);
        } else {
            lemma_slashed_start(own);
            assert(own[0].contains(own[0][0]));
            assert(lead(absolute) + own =~= own);
        }
    }
}

/// A text that pieces without slashes make starts with the first of them.
proof fn lemma_slashed_start(list: Seq<Seq<char>>)
    requires
        list.len() > 0,
        list[0].len() > 0,
    ensures
        slashed(list).len() > 0,
        slashed(list)[0] == list[0][0],
    decreases list.len(),
{
    if list.len() > 1 {
        lemma_slashed_start(list.drop_last());
    }
}

/// The components of a path behind its first slash, and those of the path that
/// no component leads: a dot counts for nothing among them.
spec fn inner_parts(path: Seq<char>) -> Seq<Part> {
    parts_of(seq![Seq::<char>::empty()] + pieces(path, '/'))
}

/// What stands in front of the other components: a root, or a leading dot.
spec fn lead_parts(path: Seq<char>) -> Seq<Part> {
    if absolute(path) {
        seq![Part::Root]
    } else if path.len() > 0 && path.take(first_index(path, '/')) == "."@ {
        seq![Part::Current]
    } else {
        Seq::empty()
    }
}

proof fn lemma_parts_behind(front: Seq<Seq<char>>, list: Seq<Seq<char>>)
    requires
        front.len() > 0,
    ensures
        parts_of(front + list) == parts_of(front) + parts_of(seq![Seq::<char>::empty()] + list),
    decreases list.len(),
{
    let none = Seq::<char>::empty();
    let own = seq![none] + list;
    reveal_with_fuel(parts_of, 2);
    if list.len() == 0 {
        assert(front + list =~= front);
        assert(own =~= seq![none]);
        assert(seq![none].drop_last() =~= Seq::<Seq<char>>::empty());
        assert(parts_of(own) =~= Seq::<Part>::empty());
        assert(parts_of(front) + Seq::<Part>::empty() =~= parts_of(front));
    } else {
        let rest = list.drop_last();
        lemma_parts_behind(front, rest);
        assert((front + list).drop_last() =~= front + rest);
        assert(own.drop_last() =~= seq![none] + rest);
        assert((front + list).last() == list.last() && own.last() == list.last());
        assert((front + list).len() > 1 && own.len() > 1);
        match part_of(list.last(), false) {
            Some(part) => {
                assert(parts_of(front + list) =~= parts_of(front) + parts_of(own));
            },
            None => {},
        }
    }
}

proof fn lemma_inner_parts_are_plain(list: Seq<Seq<char>>)
    ensures
        ({
            let all = parts_of(seq![Seq::<char>::empty()] + list);
            forall|k: int|
                0 <= k < all.len() ==> !((#[trigger] all[k]) is Root) && !(all[k] is Current)
        }),
    decreases list.len(),
{
    let none = Seq::<char>::empty();
    let own = seq![none] + list;
    reveal_with_fuel(parts_of, 2);
    if list.len() == 0 {
        assert(own =~= seq![none]);
        assert(seq![none].drop_last() =~= Seq::<Seq<char>>::empty());
        assert(parts_of(own) =~= Seq::<Part>::empty());
    } else {
        lemma_inner_parts_are_plain(list.drop_last());
        assert(own.drop_last() =~= seq![none] + list.drop_last());
    }
}

/// A slash in front leads to the same components.
proof fn lemma_inner_slash(path: Seq<char>)
    requires
        absolute(path),
    ensures
        inner_parts(path) == inner_parts(path.skip(1)),
        parts(path) == seq![Part::Root] + inner_parts(path),
{
    let none = Seq::<char>::empty();
    let rest = pieces(path.skip(1), '/');
    lemma_rooted_pieces(path);
    assert(seq![none] + pieces(path, '/') =~= seq![none, none] + rest);
    lemma_parts_behind(seq![none, none], rest);
    reveal_with_fuel(parts_of, 3);
    assert(seq![none, none].drop_last() =~= seq![none]);
    assert(seq![none].drop_last() =~= Seq::<Seq<char>>::empty());
    assert(parts_of(seq![none, none]) =~= Seq::<Part>::empty());
    assert(Seq::<Part>::empty() + parts_of(seq![none] + rest) =~= parts_of(seq![none] + rest));
}

/// The components of a path that starts with a piece are that piece's, and
/// those of the rest.
proof fn lemma_inner_first(path: Seq<char>)
    requires
        path.len() > 0,
        path[0] != '/',
    ensures
        ({
            let i = first_index(path, '/');
            let piece = path.take(i);
            let rest = inner_parts(path.skip(i));
            &&& 0 < i <= path.len()
            &&& inner_parts(path) == (match part_of(piece, false) {
                Some(part) => seq![part],
                None => Seq::empty(),
            }) + rest
            &&& parts(path) == (match part_of(piece, true) {
                Some(part) => seq![part],
                None => Seq::empty(),
            }) + rest
        }),
{
    let none = Seq::<char>::empty();
    lemma_first_index(path, '/');
    let i = first_index(path, '/');
    let piece = path.take(i);
    let behind = path.skip(i);
    reveal_with_fuel(parts_of, 3);
    assert(seq![none, piece].drop_last() =~= seq![none]);
    assert(seq![none].drop_last() =~= Seq::<Seq<char>>::empty());
    assert(seq![piece].drop_last() =~= Seq::<Seq<char>>::empty());
    assert(parts_of(seq![none]) =~= Seq::<Part>::empty());
    assert(parts_of(seq![none, piece]) =~= match part_of(piece, false) {
        Some(part) => seq![part],
        None => Seq::empty(),
    });
    assert(parts_of(seq![piece]) =~= match part_of(piece, true) {
        Some(part) => seq![part],
        None => Seq::empty(),
    });
    let list = if i < path.len() {
        pieces(path.skip(i + 1), '/')
    } else {
        Seq::empty()
    };
    assert(pieces(path, '/') =~= seq![piece] + list) by {
        if i >= path.len() {
            assert(piece =~= path);
        }
    }
    assert(seq![none] + pieces(path, '/') =~= seq![none, piece] + list);
    lemma_parts_behind(seq![none, piece], list);
    lemma_parts_behind(seq![piece], list);
    assert(parts_of(seq![none] + list) == inner_parts(behind)) by {
        if i < path.len() {
            assert(behind[0] == '/');
            lemma_inner_slash(behind);
            assert(behind.skip(1) =~= path.skip(i + 1));
        } else {
            assert(behind =~= none);
            lemma_first_index(none, '/');
            assert(pieces(none, '/') == seq![none]);
            assert(seq![none] + list =~= seq![none]);
            assert(seq![none] + seq![none] =~= seq![none, none]);
            assert(seq![none, none].drop_last() =~= seq![none]);
            assert(inner_parts(behind) =~= Seq::<Part>::empty());
        }
    }
}

proof fn lemma_inner_empty()
    ensures
        inner_parts(Seq::empty()).len() == 0,
        parts(Seq::empty()).len() == 0,
{
    let none = Seq::<char>::empty();
    lemma_first_index(none, '/');
    reveal_with_fuel(parts_of, 3);
    assert(pieces(none, '/') == seq![none]);
    assert(seq![none].drop_last() =~= Seq::<Seq<char>>::empty());
    assert(seq![none] + seq![none] =~= seq![none, none]);
    assert(seq![none, none].drop_last() =~= seq![none]);
}

/// A path is made of what leads it and of its inner components.
proof fn lemma_lead_and_inner(path: Seq<char>)
    ensures
        parts(path) == lead_parts(path) + inner_parts(path),
{
    let none = Seq::<Part>::empty();
    if path.len() == 0 {
        assert(path =~= Seq::<char>::empty());
        lemma_inner_empty();
        assert(parts(path) =~= none);
        assert(inner_parts(path) =~= none);
    } else if absolute(path) {
        lemma_inner_slash(path);
    } else {
        lemma_inner_first(path);
        lemma_first_index(path, '/');
        let i = first_index(path, '/');
        let piece = path.take(i);
        let rest = inner_parts(path.skip(i));
        reveal_strlit(".");
        if piece == "."@ {
            assert(none + rest =~= rest);
            assert(parts(path) =~= seq![Part::Current] + inner_parts(path));
        } else {
            assert(none + inner_parts(path) =~= inner_parts(path));
        }
    }
}

/// What has no head starts with a piece that is a component.
spec fn headless(path: Seq<char>) -> bool {
    path.len() > 0 ==> path[0] != '/' && path.take(first_index(path, '/')) != "."@
}

proof fn lemma_without_head(path: Seq<char>)
    ensures
        inner_parts(without_head(path)) == inner_parts(path),
        headless(without_head(path)),
    decreases path.len(),
{
    reveal_strlit(".");
    if path.len() > 0 {
        let i = first_index(path, '/');
        lemma_first_index(path, '/');
        if path[0] == '/' {
            lemma_inner_slash(path);
            lemma_without_head(path.skip(1));
        } else if path[0] == '.' && (path.len() == 1 || path[1] == '/') {
            lemma_inner_first(path);
            assert(i == 1) by {
                if path.len() > 1 && i > 1 {
                    assert(path[1] != '/');
                }
            }
            assert(path.take(1) =~= "."@);
            let rest = inner_parts(path.skip(1));
            assert(Seq::<Part>::empty() + rest =~= rest);
            lemma_without_head(path.skip(1));
        } else {
            if path.take(i) == "."@ {
                assert(path.take(i).len() == "."@.len());
                assert(i == 1);
                assert(path.take(i)[0] == path[0]);
                assert(path[0] == "."@[0]);
                if path.len() > 1 {
                    assert(path[1] == '/');
                }
            }
        }
    }
}

proof fn lemma_behind(path: Seq<char>, names: nat)
    requires
        names <= inner_parts(path).len(),
    ensures
        inner_parts(behind(path, names)) == inner_parts(path).skip(names as int),
        headless(behind(path, names)),
    decreases names,
{
    let own = without_head(path);
    lemma_without_head(path);
    let all = inner_parts(path);
    if names == 0 {
        assert(all.skip(0) =~= all);
    } else {
        if own.len() == 0 {
            assert(own =~= Seq::<char>::empty());
            lemma_inner_empty();
        }
        lemma_inner_first(own);
        let i = first_index(own, '/');
        let piece = own.take(i);
        let rest = inner_parts(own.skip(i));
        assert(piece.len() > 0);
        let part = part_of(piece, false)->0;
        assert(all == seq![part] + rest);
        lemma_behind(own.skip(i), (names - 1) as nat);
        assert(all.skip(names as int) =~= rest.skip(names - 1));
    }
}

proof fn lemma_headless_parts(path: Seq<char>)
    requires
        headless(path),
    ensures
        parts(path) == inner_parts(path),
{
    lemma_lead_and_inner(path);
    assert(Seq::<Part>::empty() + inner_parts(path) =~= inner_parts(path));
}

proof fn lemma_name_count(lead: Seq<Part>, list: Seq<Part>)
    requires
        forall|k: int| 0 <= k < list.len() ==> !((#[trigger] list[k]) is Root) && !(list[k] is Current),
    ensures
        name_count(lead + list) == name_count(lead) + list.len(),
    decreases list.len(),
{
    if list.len() == 0 {
        assert(lead + list =~= lead);
    } else {
        let front = list.drop_last();
        assert((lead + list).drop_last() =~= lead + front);
        assert((lead + list).last() == list.last());
        assert(!(list[list.len() - 1] is Root));
        lemma_name_count(lead, front);
    }
}

/// What is left of a path behind a base has the components that the base lacks:
/// the two together are the path.
pub proof fn stripped_paths_are_what_the_base_lacks(path: Seq<char>, base: Seq<char>)
    requires
        stripped(path, base) is Some,
    ensures
        parts(path) == parts(base) + parts(stripped(path, base)->0),
{
    let rest = stripped(path, base)->0;
    let none = Seq::<Seq<char>>::empty();
    if parts(base).len() == 0 {
        if absolute(path) {
            let tail = without_tail(path.skip(1));
            let front = seq![Seq::<char>::empty()];
            lemma_without_tail(front, path.skip(1));
            lemma_inner_slash(path);
            lemma_inner_slash(rest);
            assert(rest.skip(1) =~= tail);
        } else {
            lemma_without_tail(none, path);
            assert(none + pieces(path, '/') =~= pieces(path, '/'));
            assert(none + pieces(rest, '/') =~= pieces(rest, '/'));
            if rest.len() > 0 {
                assert(rest[0] == path[0]);
            }
        }
        assert(parts(base) + parts(rest) =~= parts(rest));
    } else {
        let (lead, inner) = (lead_parts(base), inner_parts(base));
        let all = inner_parts(path);
        lemma_lead_and_inner(base);
        lemma_lead_and_inner(path);
        lemma_inner_parts_are_plain(pieces(base, '/'));
        lemma_inner_parts_are_plain(pieces(path, '/'));
        lemma_name_count(lead, inner);
        reveal_with_fuel(name_count, 2);
        assert(name_count(lead) == 0) by {
            if lead.len() > 0 {
                assert(lead.drop_last() =~= Seq::<Part>::empty());
            }
        }
        assert(parts(path)[0] == parts(base)[0]) by {
            assert(parts(path).take(parts(base).len() as int)[0] == parts(path)[0]);
        }
        assert(lead_parts(path) == lead) by {
            if lead.len() > 0 {
                assert(parts(base)[0] == lead[0]);
                if lead_parts(path).len() == 0 {
                    assert(parts(path)[0] == all[0]);
                } else {
                    assert(parts(path)[0] == lead_parts(path)[0]);
                }
            } else {
                assert(parts(base)[0] == inner[0]);
                if lead_parts(path).len() > 0 {
                    assert(parts(path)[0] == lead_parts(path)[0]);
                }
            }
        }
        let count = inner.len();
        assert(count <= all.len());
        assert(all.take(count as int) =~= inner) by {
            assert forall|k: int| 0 <= k < count implies all[k] == inner[k] by {
                assert(parts(path).take(parts(base).len() as int)[lead.len() + k] == parts(
                    path,
                )[lead.len() + k]);
                assert(parts(base)[lead.len() + k] == inner[k]);
                assert(parts(path)[lead.len() + k] == all[k]);
            }
        }
        lemma_behind(path, count);
        let own = behind(path, count);
        lemma_headless_parts(own);
        lemma_without_tail(none, own);
        assert(none + pieces(own, '/') =~= pieces(own, '/'));
        assert(none + pieces(rest, '/') =~= pieces(rest, '/'));
        if rest.len() > 0 {
            assert(rest[0] == own[0]);
        }
        assert(parts(rest) == all.skip(count as int));
        assert(parts(path) =~= parts(base) + all.skip(count as int));
    }
}

} // verus!
