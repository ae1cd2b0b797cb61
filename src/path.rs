//! Paths as sequences of components, with the order, equality and prefix
//! relations that std's `Path` gives them.
use vstd::prelude::*;
use vstd::relations::*;
use vstd::string::*;

use crate::order::{lemma_lex_skip, lemma_lex_strict_total, lex_lt};

verus! {

/// One component of a path: what `std::path::Path::components` yields.
#[derive(Debug, PartialEq, Eq)]
pub enum Component {
    Prefix(String),
    RootDir,
    CurDir,
    ParentDir,
    Normal(String),
}

/// The mathematical value of a `Component`.
pub enum Part {
    Prefix(Seq<char>),
    Root,
    Cur,
    Parent,
    Normal(Seq<char>),
}

impl View for Component {
    type V = Part;

    open spec fn view(&self) -> Part {
        match self {
            Component::Prefix(s) => Part::Prefix(s@),
            Component::RootDir => Part::Root,
            Component::CurDir => Part::Cur,
            Component::ParentDir => Part::Parent,
            Component::Normal(s) => Part::Normal(s@),
        }
    }
}

/// A path, held as its components.
#[derive(Debug, PartialEq, Eq)]
pub struct FilePath {
    pub components: Vec<Component>,
}

impl View for FilePath {
    type V = Seq<Part>;

    open spec fn view(&self) -> Seq<Part> {
        self.components@.map_values(|c: Component| c@)
    }
}

pub open spec fn char_lt(a: char, b: char) -> bool {
    (a as u32) < (b as u32)
}

pub open spec fn char_order() -> spec_fn(char, char) -> bool {
    |x: char, y: char| char_lt(x, y)
}

/// Text order: code point by code point, which is also the order of the
/// UTF-8 bytes.
pub open spec fn text_lt(a: Seq<char>, b: Seq<char>) -> bool {
    lex_lt(a, b, char_order())
}

pub open spec fn rank(p: Part) -> int {
    match p {
        Part::Prefix(_) => 0,
        Part::Root => 1,
        Part::Cur => 2,
        Part::Parent => 3,
        Part::Normal(_) => 4,
    }
}

pub open spec fn text_of(p: Part) -> Seq<char> {
    match p {
        Part::Prefix(s) => s,
        Part::Normal(s) => s,
        _ => Seq::empty(),
    }
}

/// Components are ordered by kind first (in the order of the variants), then
/// by their text.
pub open spec fn part_lt(a: Part, b: Part) -> bool {
    rank(a) < rank(b) || (rank(a) == rank(b) && text_lt(text_of(a), text_of(b)))
}

pub open spec fn part_order() -> spec_fn(Part, Part) -> bool {
    |x: Part, y: Part| part_lt(x, y)
}

/// Paths are ordered component by component.
pub open spec fn path_lt(a: Seq<Part>, b: Seq<Part>) -> bool {
    lex_lt(a, b, part_order())
}

pub open spec fn path_order() -> spec_fn(Seq<Part>, Seq<Part>) -> bool {
    |x: Seq<Part>, y: Seq<Part>| path_lt(x, y)
}

pub proof fn lemma_char_order()
    ensures
        strict_total_ordering(char_order()),
{
    assert forall|x: char, y: char| x != y implies #[trigger] char_order()(x, y) || #[trigger] char_order()(
        y,
        x,
    ) by {
        vstd::utf8::char_u32_cast(x, x as u32);
        vstd::utf8::char_u32_cast(y, y as u32);
    }
}

pub proof fn lemma_text_order(a: Seq<char>, b: Seq<char>, c: Seq<char>)
    ensures
        !text_lt(a, a),
        text_lt(a, b) && text_lt(b, c) ==> text_lt(a, c),
        a != b ==> text_lt(a, b) || text_lt(b, a),
{
    lemma_char_order();
    lemma_lex_strict_total(char_order());
    let r = |x: Seq<char>, y: Seq<char>| lex_lt(x, y, char_order());
    assert(r(a, a) == false);
    if text_lt(a, b) && text_lt(b, c) {
        assert(r(a, b) && r(b, c));
    }
    if a != b {
        assert(r(a, b) || r(b, a));
    }
}

pub proof fn lemma_part_order()
    ensures
        strict_total_ordering(part_order()),
{
    let r = part_order();
    assert forall|x: Part| #[trigger] r(x, x) == false by {
        lemma_text_order(text_of(x), text_of(x), text_of(x));
    }
    assert forall|x: Part, y: Part| #[trigger] r(x, y) && #[trigger] r(y, x) implies x == y by {
        lemma_text_order(text_of(x), text_of(y), text_of(x));
    }
    assert forall|x: Part, y: Part, z: Part| #[trigger] r(x, y) && #[trigger] r(y, z) implies r(
        x,
        z,
    ) by {
        lemma_text_order(text_of(x), text_of(y), text_of(z));
    }
    assert forall|x: Part, y: Part| x != y implies #[trigger] r(x, y) || #[trigger] r(y, x) by {
        lemma_text_order(text_of(x), text_of(y), text_of(x));
        if rank(x) == rank(y) {
            assert(text_of(x) != text_of(y));
        }
    }
}

/// The order of paths is a strict total order.
pub proof fn lemma_path_order()
    ensures
        strict_total_ordering(path_order()),
{
    lemma_part_order();
    lemma_lex_strict_total(part_order());
    let r = |x: Seq<Part>, y: Seq<Part>| lex_lt(x, y, part_order());
    assert(forall|x: Seq<Part>, y: Seq<Part>| #[trigger] path_order()(x, y) == r(x, y));
}

/// Compares two texts: negative, zero or positive as `a` comes before, equals
/// or comes after `b`.
pub fn text_cmp(a: &str, b: &str) -> (r: i8)
    ensures
        r < 0 <==> text_lt(a@, b@),
        r == 0 <==> a@ == b@,
        r > 0 <==> text_lt(b@, a@),
{
    proof {
        lemma_char_order();
        lemma_text_order(a@, b@, a@);
    }
    let la = a.unicode_len();
    let lb = b.unicode_len();
    let mut i: usize = 0;
    while i < la && i < lb
        invariant
            la == a@.len(),
            lb == b@.len(),
            0 <= i <= la,
            i <= lb,
            a@.take(i as int) == b@.take(i as int),
            strict_total_ordering(char_order()),
        decreases la - i,
    {
        let ca = a.get_char(i);
        let cb = b.get_char(i);
        if ca != cb {
            proof {
                lemma_lex_skip(a@, b@, i as int, char_order());
                lemma_lex_skip(b@, a@, i as int, char_order());
                assert(a@.skip(i as int)[0] == ca);
                assert(b@.skip(i as int)[0] == cb);
                vstd::utf8::char_u32_cast(ca, ca as u32);
                vstd::utf8::char_u32_cast(cb, cb as u32);
                if a@ == b@ {
                    assert(a@[i as int] == b@[i as int]);
                }
            }
            if (ca as u32) < (cb as u32) {
                return -1;
            } else {
                return 1;
            }
        }
        proof {
            assert(a@.take(i + 1) =~= a@.take(i as int).push(ca));
            assert(b@.take(i + 1) =~= b@.take(i as int).push(cb));
        }
        i = i + 1;
    }
    proof {
        lemma_lex_skip(a@, b@, i as int, char_order());
        lemma_lex_skip(b@, a@, i as int, char_order());
        assert(a@.take(i as int) =~= a@ || b@.take(i as int) =~= b@);
    }
    if la == lb {
        proof {
            assert(a@ =~= a@.take(i as int));
            assert(b@ =~= b@.take(i as int));
        }
        0
    } else if la < lb {
        -1
    } else {
        1
    }
}

fn rank_of(c: &Component) -> (r: u8)
    ensures
        r == rank(c@),
{
    match c {
        Component::Prefix(_) => 0,
        Component::RootDir => 1,
        Component::CurDir => 2,
        Component::ParentDir => 3,
        Component::Normal(_) => 4,
    }
}

/// Compares two components in the order of `part_lt`.
pub fn component_cmp(a: &Component, b: &Component) -> (r: i8)
    ensures
        r < 0 <==> part_lt(a@, b@),
        r == 0 <==> a@ == b@,
        r > 0 <==> part_lt(b@, a@),
{
    proof {
        lemma_text_order(text_of(a@), text_of(b@), text_of(a@));
    }
    let ra = rank_of(a);
    let rb = rank_of(b);
    if ra < rb {
        return -1;
    } else if ra > rb {
        return 1;
    }
    match (a, b) {
        (Component::Prefix(x), Component::Prefix(y)) => text_cmp(x.as_str(), y.as_str()),
        (Component::Normal(x), Component::Normal(y)) => text_cmp(x.as_str(), y.as_str()),
        _ => 0,
    }
}

/// Compares two paths in the order of `path_lt`.
pub fn path_cmp(a: &FilePath, b: &FilePath) -> (r: i8)
    ensures
        r < 0 <==> path_lt(a@, b@),
        r == 0 <==> a@ == b@,
        r > 0 <==> path_lt(b@, a@),
{
    proof {
        lemma_part_order();
        lemma_path_order();
        assert(path_order()(a@, a@) == false);
        assert(path_order()(b@, b@) == false);
        if path_lt(a@, b@) && path_lt(b@, a@) {
            assert(path_order()(a@, b@) && path_order()(b@, a@));
        }
    }
    let la = a.components.len();
    let lb = b.components.len();
    let mut i: usize = 0;
    while i < la && i < lb
        invariant
            la == a@.len(),
            lb == b@.len(),
            la == a.components@.len(),
            lb == b.components@.len(),
            0 <= i <= la,
            i <= lb,
            a@.take(i as int) == b@.take(i as int),
            strict_total_ordering(part_order()),
        decreases la - i,
    {
        let c = component_cmp(&a.components[i], &b.components[i]);
        if c != 0 {
            proof {
                lemma_lex_skip(a@, b@, i as int, part_order());
                lemma_lex_skip(b@, a@, i as int, part_order());
                assert(a@.skip(i as int)[0] == a@[i as int]);
                assert(b@.skip(i as int)[0] == b@[i as int]);
                if a@ == b@ {
                    assert(a@[i as int] == b@[i as int]);
                }
            }
            return c;
        }
        proof {
            assert(a@.take(i + 1) =~= a@.take(i as int).push(a@[i as int]));
            assert(b@.take(i + 1) =~= b@.take(i as int).push(b@[i as int]));
        }
        i = i + 1;
    }
    proof {
        lemma_lex_skip(a@, b@, i as int, part_order());
        lemma_lex_skip(b@, a@, i as int, part_order());
    }
    if la == lb {
        proof {
            assert(a@ =~= a@.take(i as int));
            assert(b@ =~= b@.take(i as int));
        }
        0
    } else if la < lb {
        -1
    } else {
        1
    }
}

/// The file name: the last component, where it is a normal one.
pub open spec fn file_name_of(p: Seq<Part>) -> Option<Seq<char>> {
    if p.len() > 0 && p.last() is Normal {
        Some(text_of(p.last()))
    } else {
        None
    }
}

/// The parent: the path without its last component, where that component is
/// a normal one, `.` or `..`; none for an empty path or one that ends in a
/// root or a prefix.
pub open spec fn parent_of(p: Seq<Part>) -> Option<Seq<Part>> {
    if p.len() > 0 && (p.last() is Normal || p.last() is Cur || p.last() is Parent) {
        Some(p.drop_last())
    } else {
        None
    }
}

/// `base` is a leading run of whole components of `p`.
pub open spec fn starts_with(p: Seq<Part>, base: Seq<Part>) -> bool {
    base.len() <= p.len() && p.take(base.len() as int) == base
}

/// The text of a component when a path is shown (with `/` as separator).
pub open spec fn part_text(c: Part) -> Seq<char> {
    match c {
        Part::Prefix(s) => s,
        Part::Root => seq!['/'],
        Part::Cur => seq!['.'],
        Part::Parent => seq!['.', '.'],
        Part::Normal(s) => s,
    }
}

/// A separator follows every component but a root and a prefix.
pub open spec fn separated(c: Part) -> bool {
    !(c is Root || c is Prefix)
}

/// How a path is shown: its components, with a separator between two of them
/// where the first one is neither a root nor a prefix.
pub open spec fn display_of(p: Seq<Part>) -> Seq<char>
    decreases p.len(),
{
    if p.len() == 0 {
        Seq::empty()
    } else {
        let q = p.drop_last();
        display_of(q) + (if q.len() > 0 && separated(q.last()) {
            seq!['/']
        } else {
            Seq::empty()
        }) + part_text(p.last())
    }
}

impl Component {
    /// A copy of this component.
    pub fn copy(&self) -> (r: Component)
        ensures
            r@ == self@,
    {
        match self {
            Component::Prefix(s) => Component::Prefix(s.clone()),
            Component::RootDir => Component::RootDir,
            Component::CurDir => Component::CurDir,
            Component::ParentDir => Component::ParentDir,
            Component::Normal(s) => Component::Normal(s.clone()),
        }
    }

    /// How this component is shown.
    pub fn text(&self) -> (r: String)
        ensures
            r@ == part_text(self@),
    {
        match self {
            Component::Prefix(s) => s.clone(),
            Component::RootDir => {
                let r = String::from_str("/");
                proof {
                    reveal_strlit("/");
                }
                r
            },
            Component::CurDir => {
                let r = String::from_str(".");
                proof {
                    reveal_strlit(".");
                }
                r
            },
            Component::ParentDir => {
                let r = String::from_str("..");
                proof {
                    reveal_strlit("..");
                }
                r
            },
            Component::Normal(s) => s.clone(),
        }
    }
}

impl FilePath {
    /// A path made of the given components.
    pub fn new(components: Vec<Component>) -> (r: FilePath)
        ensures
            r.components@ == components@,
    {
        FilePath { components }
    }

    /// The components from `start` up to `end`, as a path of their own.
    pub fn slice(&self, start: usize, end: usize) -> (r: FilePath)
        requires
            start <= end <= self@.len(),
        ensures
            r@ == self@.subrange(start as int, end as int),
    {
        let mut v: Vec<Component> = Vec::new();
        let mut i: usize = start;
        while i < end
            invariant
                start <= i <= end,
                end <= self.components@.len(),
                v@.len() == i - start,
                forall|k: int| 0 <= k < v@.len() ==> #[trigger] v@[k]@ == self.components@[start + k]@,
            decreases end - i,
        {
            v.push(self.components[i].copy());
            i = i + 1;
        }
        let r = FilePath { components: v };
        assert(r@ =~= self@.subrange(start as int, end as int));
        r
    }

    /// A copy of this path.
    pub fn copy(&self) -> (r: FilePath)
        ensures
            r@ == self@,
    {
        let r = self.slice(0, self.components.len());
        assert(self@.subrange(0, self@.len() as int) =~= self@);
        r
    }

    /// The path equals `other`, component by component.
    pub fn equals(&self, other: &FilePath) -> (r: bool)
        ensures
            r == (self@ == other@),
    {
        path_cmp(self, other) == 0
    }

    /// The file name, where the path ends in a normal component.
    pub fn file_name(&self) -> (r: Option<&String>)
        ensures
            r matches Some(s) ==> file_name_of(self@) == Some(s@),
            r is None ==> file_name_of(self@) is None,
    {
        let n = self.components.len();
        if n == 0 {
            return None;
        }
        match &self.components[n - 1] {
            Component::Normal(s) => Some(s),
            _ => None,
        }
    }

    /// The parent directory, as `std::path::Path::parent` gives it.
    pub fn parent(&self) -> (r: Option<FilePath>)
        ensures
            r matches Some(q) ==> parent_of(self@) == Some(q@),
            r is None ==> parent_of(self@) is None,
    {
        let n = self.components.len();
        if n == 0 {
            return None;
        }
        match &self.components[n - 1] {
            Component::Prefix(_) | Component::RootDir => None,
            _ => {
                let q = self.slice(0, n - 1);
                assert(self@.subrange(0, n - 1) =~= self@.drop_last());
                Some(q)
            },
        }
    }

    /// This path followed by one more normal component.
    pub fn join_name(&self, name: String) -> (r: FilePath)
        ensures
            r@ == self@.push(Part::Normal(name@)),
    {
        let mut r = self.copy();
        r.components.push(Component::Normal(name));
        assert(r@ =~= self@.push(Part::Normal(name@)));
        r
    }

    /// `base` is a leading run of whole components of this path.
    pub fn starts_with(&self, base: &FilePath) -> (r: bool)
        ensures
            r == starts_with(self@, base@),
    {
        let n = base.components.len();
        if n > self.components.len() {
            return false;
        }
        let mut i: usize = 0;
        while i < n
            invariant
                n == base@.len(),
                n <= self@.len(),
                n == base.components@.len(),
                n <= self.components@.len(),
                0 <= i <= n,
                self@.take(i as int) == base@.take(i as int),
            decreases n - i,
        {
            if component_cmp(&self.components[i], &base.components[i]) != 0 {
                assert(self@.take(n as int)[i as int] == self@[i as int]);
                return false;
            }
            assert(self@.take(i + 1) =~= self@.take(i as int).push(self@[i as int]));
            assert(base@.take(i + 1) =~= base@.take(i as int).push(base@[i as int]));
            i = i + 1;
        }
        assert(base@.take(n as int) =~= base@);
        true
    }

    /// The path as it is shown.
    pub fn display(&self) -> (r: String)
        ensures
            r@ == display_of(self@),
    {
        let mut out = String::new();
        let n = self.components.len();
        let mut i: usize = 0;
        while i < n
            invariant
                n == self@.len(),
                n == self.components@.len(),
                0 <= i <= n,
                out@ == display_of(self@.take(i as int)),
            decreases n - i,
        {
            proof {
                assert(self@.take(i + 1).drop_last() =~= self@.take(i as int));
            }
            if i > 0 {
                match &self.components[i - 1] {
                    Component::Prefix(_) | Component::RootDir => {},
                    _ => {
                        out.append("/");
                        proof {
                            reveal_strlit("/");
                        }
                    },
                }
            }
            let t = self.components[i].text();
            out.append(t.as_str());
            i = i + 1;
        }
        assert(self@.take(n as int) =~= self@);
        out
    }
}

} // verus!
