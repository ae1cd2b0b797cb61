//! What a run shows and returns: each planned rename as a line, the answer to
//! the confirmation prompt, the closing summary and the exit status.
use vstd::prelude::*;
use vstd::string::*;

use crate::path::{display_of, parent_of, starts_with, Component, FilePath, Part};

verus! {

/// The ancestors of `s` that std's `Path::ancestors` yields, longest first:
/// the first one that `t` starts with.
pub open spec fn common_ancestor_of(s: Seq<Part>, t: Seq<Part>) -> Option<Seq<Part>>
    decreases s.len(),
{
    if starts_with(t, s) {
        Some(s)
    } else if parent_of(s) is Some {
        common_ancestor_of(s.drop_last(), t)
    } else {
        None
    }
}

/// The longest ancestor of `source` (itself included) that `target` starts
/// with.
pub fn common_ancestor(source: &FilePath, target: &FilePath) -> (r: Option<FilePath>)
    ensures
        r matches Some(a) ==> common_ancestor_of(source@, target@) == Some(a@),
        r is None ==> common_ancestor_of(source@, target@) is None,
{
    let mut k: usize = source.components.len();
    proof {
        assert(source@.subrange(0, k as int) =~= source@);
    }
    loop
        invariant
            k <= source@.len(),
            k == source@.subrange(0, k as int).len(),
            common_ancestor_of(source@, target@) == common_ancestor_of(
                source@.subrange(0, k as int),
                target@,
            ),
        decreases k,
    {
        let a = source.slice(0, k);
        if target.starts_with(&a) {
            return Some(a);
        }
        if k == 0 {
            return None;
        }
        match &source.components[k - 1] {
            Component::Prefix(_) | Component::RootDir => {
                return None;
            },
            _ => {
                proof {
                    assert(a@.drop_last() =~= source@.subrange(0, k - 1));
                }
                k = k - 1;
            },
        }
    }
}

/// How an ancestor is written before the braces: each component but `.`, a
/// separator after each normal component and `..`.
pub open spec fn ancestor_head(a: Seq<Part>) -> Seq<char>
    decreases a.len(),
{
    if a.len() == 0 {
        Seq::empty()
    } else {
        ancestor_head(a.drop_last()) + match a.last() {
            Part::Cur => Seq::empty(),
            Part::Normal(s) => s + seq!['/'],
            Part::Parent => seq!['.', '.', '/'],
            Part::Prefix(s) => s,
            Part::Root => seq!['/'],
        }
    }
}

/// Only `.` components: nothing of the ancestor is written.
pub open spec fn only_cur(a: Seq<Part>) -> bool {
    forall|i: int| 0 <= i < a.len() ==> #[trigger] a[i] is Cur
}

pub open spec fn arrow() -> Seq<char> {
    seq![' ', '=', '>', ' ']
}

/// The line that shows a rename: the common ancestor written once, and the
/// parts that differ as `{old => new}`.
pub open spec fn rename_line(s: Seq<Part>, t: Seq<Part>) -> Seq<char> {
    match common_ancestor_of(s, t) {
        Some(a) => {
            let body = display_of(s.skip(a.len() as int)) + arrow() + display_of(
                t.skip(a.len() as int),
            );
            if only_cur(a) {
                body + seq!['\n']
            } else {
                ancestor_head(a) + seq!['{'] + body + seq!['}', '\n']
            }
        },
        None => display_of(s) + arrow() + display_of(t) + seq!['\n'],
    }
}

/// Writes the ancestor's head; true where nothing was written.
fn write_ancestor(out: &mut String, a: &FilePath) -> (empty: bool)
    ensures
        final(out)@ == old(out)@ + ancestor_head(a@),
        empty == only_cur(a@),
{
    let mut empty = true;
    let n = a.components.len();
    let mut i: usize = 0;
    let ghost start = out@;
    while i < n
        invariant
            n == a@.len(),
            n == a.components@.len(),
            0 <= i <= n,
            out@ == start + ancestor_head(a@.take(i as int)),
            empty == only_cur(a@.take(i as int)),
        decreases n - i,
    {
        proof {
            assert(a@.take(i + 1).drop_last() =~= a@.take(i as int));
            reveal_strlit("/");
            reveal_strlit("../");
        }
        let ghost before = out@;
        match &a.components[i] {
            Component::CurDir => {},
            Component::Normal(s) => {
                out.append(s.as_str());
                out.append("/");
                empty = false;
            },
            Component::ParentDir => {
                out.append("../");
                empty = false;
            },
            Component::Prefix(s) => {
                out.append(s.as_str());
                empty = false;
            },
            Component::RootDir => {
                out.append("/");
                empty = false;
            },
        }
        proof {
            let t = a@.take(i + 1);
            let p = a@.take(i as int);
            assert(t.last() == a@[i as int]);
            assert(out@ =~= start + ancestor_head(t));
            assert(t =~= p.push(a@[i as int]));
            if a@[i as int] is Cur {
                if only_cur(p) {
                    assert forall|j: int| 0 <= j < t.len() implies #[trigger] t[j] is Cur by {
                        if j < i {
                            assert(t[j] == p[j]);
                        }
                    }
                }
                if only_cur(t) {
                    assert forall|j: int| 0 <= j < p.len() implies #[trigger] p[j] is Cur by {
                        assert(t[j] == p[j]);
                    }
                }
            } else {
                assert(!(t[i as int] is Cur));
            }
        }
        i = i + 1;
    }
    proof {
        assert(a@.take(n as int) =~= a@);
    }
    empty
}

/// Writes the line that shows a rename: a shared ancestor once, then
/// `{old => new}`.
pub fn write_rename(out: &mut String, source: &FilePath, target: &FilePath)
    ensures
        final(out)@ == old(out)@ + rename_line(source@, target@),
{
    proof {
        reveal_strlit(" => ");
        reveal_strlit("{");
        reveal_strlit("}\n");
        reveal_strlit("\n");
    }
    match common_ancestor(source, target) {
        Some(a) => {
            let k = a.components.len();
            proof {
                lemma_ancestor_is_prefix(source@, target@);
                assert(starts_with(target@, a@));
            }
            let ghost start = out@;
            let empty = write_ancestor(out, &a);
            if !empty {
                out.append("{");
            }
            let s = source.slice(k, source.components.len()).display();
            let t = target.slice(k, target.components.len()).display();
            assert(source@.subrange(k as int, source@.len() as int) =~= source@.skip(k as int));
            assert(target@.subrange(k as int, target@.len() as int) =~= target@.skip(k as int));
            out.append(s.as_str());
            out.append(" => ");
            out.append(t.as_str());
            if !empty {
                out.append("}\n");
            } else {
                out.append("\n");
            }
            proof {
                let body = display_of(source@.skip(k as int)) + arrow() + display_of(
                    target@.skip(k as int),
                );
                assert(" => "@ == arrow());
                assert(start == old(out)@);
                if empty {
                    lemma_only_cur_head(a@);
                    assert(out@ =~= start + ancestor_head(a@) + (body + seq!['\n']));
                } else {
                    assert(out@ =~= start + (ancestor_head(a@) + seq!['{'] + body + seq!['}', '\n']));
                }
            }
        },
        None => {
            let s = source.display();
            let t = target.display();
            out.append(s.as_str());
            out.append(" => ");
            out.append(t.as_str());
            out.append("\n");
            assert(out@ =~= old(out)@ + rename_line(source@, target@));
        },
    }
}

proof fn lemma_only_cur_head(a: Seq<Part>)
    requires
        only_cur(a),
    ensures
        ancestor_head(a) == Seq::<char>::empty(),
    decreases a.len(),
{
    if a.len() > 0 {
        assert(a.last() is Cur);
        let p = a.drop_last();
        assert forall|i: int| 0 <= i < p.len() implies #[trigger] p[i] is Cur by {
            assert(p[i] == a[i]);
        }
        lemma_only_cur_head(p);
        assert(ancestor_head(a) =~= ancestor_head(p));
    }
}

/// The common ancestor is a leading run of the source's components.
pub proof fn lemma_ancestor_is_prefix(s: Seq<Part>, t: Seq<Part>)
    ensures
        common_ancestor_of(s, t) matches Some(a) ==> a.len() <= s.len() && starts_with(t, a),
    decreases s.len(),
{
    if !starts_with(t, s) && parent_of(s) is Some {
        lemma_ancestor_is_prefix(s.drop_last(), t);
    }
}

/// The plural ending for a count: `s` from two on.
pub open spec fn plural_of(n: nat) -> Seq<char> {
    if n >= 2 {
        seq!['s']
    } else {
        Seq::empty()
    }
}

/// The plural ending for a count.
pub fn pluralize(value: usize) -> (r: &'static str)
    ensures
        r@ == plural_of(value as nat),
{
    proof {
        reveal_strlit("s");
        reveal_strlit("");
    }
    if value >= 2 {
        "s"
    } else {
        ""
    }
}

pub open spec fn digit_char(d: nat) -> char {
    if d == 0 { '0' }
    else if d == 1 { '1' }
    else if d == 2 { '2' }
    else if d == 3 { '3' }
    else if d == 4 { '4' }
    else if d == 5 { '5' }
    else if d == 6 { '6' }
    else if d == 7 { '7' }
    else if d == 8 { '8' }
    else { '9' }
}

/// A number in decimal digits.
pub open spec fn decimal_text(n: nat) -> Seq<char>
    decreases n,
{
    if n < 10 {
        seq![digit_char(n)]
    } else {
        decimal_text(n / 10).push(digit_char(n % 10))
    }
}

fn digit_text(d: usize) -> (r: &'static str)
    requires
        d < 10,
    ensures
        r@ == seq![digit_char(d as nat)],
{
    proof {
        reveal_strlit("0");
        reveal_strlit("1");
        reveal_strlit("2");
        reveal_strlit("3");
        reveal_strlit("4");
        reveal_strlit("5");
        reveal_strlit("6");
        reveal_strlit("7");
        reveal_strlit("8");
        reveal_strlit("9");
    }
    if d == 0 { "0" }
    else if d == 1 { "1" }
    else if d == 2 { "2" }
    else if d == 3 { "3" }
    else if d == 4 { "4" }
    else if d == 5 { "5" }
    else if d == 6 { "6" }
    else if d == 7 { "7" }
    else if d == 8 { "8" }
    else { "9" }
}

/// Writes a number in decimal digits.
pub fn write_decimal(out: &mut String, n: usize)
    ensures
        final(out)@ == old(out)@ + decimal_text(n as nat),
    decreases n,
{
    if n >= 10 {
        write_decimal(out, n / 10);
    }
    out.append(digit_text(n % 10));
    assert(out@ =~= old(out)@ + decimal_text(n as nat));
}

/// The summary that closes a run with no fatal error.
pub open spec fn summary_of(renamed: nat, errors: nat) -> Seq<char> {
    if renamed == 0 && errors == 0 {
        "Nothing to do"@
    } else if errors == 0 {
        decimal_text(renamed) + " renamed file"@ + plural_of(renamed)
    } else {
        decimal_text(renamed) + " renamed file"@ + plural_of(renamed) + ", "@ + decimal_text(
            errors,
        ) + " error"@ + plural_of(errors)
    }
}

/// The summary that closes a run with no fatal error: nothing to do, the
/// number of files renamed, and the number of errors where there were any.
pub fn summary(renamed: usize, errors: usize) -> (r: String)
    ensures
        r@ == summary_of(renamed as nat, errors as nat),
{
    if renamed == 0 && errors == 0 {
        return String::from_str("Nothing to do");
    }
    let mut out = String::new();
    write_decimal(&mut out, renamed);
    out.append(" renamed file");
    out.append(pluralize(renamed));
    if errors > 0 {
        out.append(", ");
        write_decimal(&mut out, errors);
        out.append(" error");
        out.append(pluralize(errors));
    }
    assert(out@ =~= summary_of(renamed as nat, errors as nat));
    out
}

/// What ends a run before any rename is made.
#[derive(Debug, PartialEq, Eq)]
pub enum RunError {
    /// The source could not be listed; the text says why.
    Io(String),
    /// The batch would overwrite this many paths.
    Conflicts(usize),
}

impl RunError {
    /// The message that describes the error.
    pub fn message(&self) -> (r: String)
        ensures
            self matches RunError::Io(m) ==> r@ == m@,
            self matches RunError::Conflicts(n) ==> r@ == decimal_text(n as nat)
                + " conflicting file"@ + plural_of(n as nat),
    {
        match self {
            RunError::Io(m) => m.clone(),
            RunError::Conflicts(n) => {
                let mut out = String::new();
                write_decimal(&mut out, *n);
                out.append(" conflicting file");
                out.append(pluralize(*n));
                out
            },
        }
    }
}

/// The exit status of a run: 0 where every rename was made (or there was
/// nothing to do), 1 where a file or a rename failed, 2 where the run ended
/// before any rename (the source could not be listed, or the batch had
/// conflicts).
pub fn exit_status(outcome: &Result<(usize, usize), RunError>) -> (code: i32)
    ensures
        outcome matches Ok((_, errors)) ==> code == if errors == 0 {
            0i32
        } else {
            1i32
        },
        outcome is Err ==> code == 2,
{
    match outcome {
        Ok((_, 0)) => 0,
        Ok(_) => 1,
        Err(_) => 2,
    }
}

/// The answer that a trimmed line of input gives to a yes/no question: an
/// empty line takes the default; `y` and `n` in either case answer; anything
/// else is no answer.
pub open spec fn answer_of(line: Seq<char>, default: bool) -> Option<bool> {
    if line.len() == 0 {
        Some(default)
    } else if line == seq!['y'] || line == seq!['Y'] {
        Some(true)
    } else if line == seq!['n'] || line == seq!['N'] {
        Some(false)
    } else {
        None
    }
}

/// The answer that a line of input, without its trailing white space, gives
/// to a yes/no question.
pub fn answer(line: &str, default: bool) -> (r: Option<bool>)
    ensures
        r == answer_of(line@, default),
{
    let n = line.unicode_len();
    if n == 0 {
        return Some(default);
    }
    if n != 1 {
        return None;
    }
    let c = line.get_char(0);
    assert(line@ =~= seq![c]);
    if c == 'y' || c == 'Y' {
        Some(true)
    } else if c == 'n' || c == 'N' {
        Some(false)
    } else {
        None
    }
}

/// A line of input without its trailing white space.
pub uninterp spec fn trimmed_end(s: Seq<char>) -> Seq<char>;

/// Relies on str::trim_end: the line without its trailing white space, which
/// is a leading part of it.
#[verifier::external_body]
fn trim_end(s: &str) -> (r: &str)
    ensures
        r@ == trimmed_end(s@),
        r@ == s@.take(r@.len() as int),
{
    s.trim_end()
}

/// The answer that a line of input gives to a yes/no question, trailing white
/// space aside.
pub fn prompt_answer(line: &str, default: bool) -> (r: Option<bool>)
    ensures
        r == answer_of(trimmed_end(line@), default),
{
    answer(trim_end(line), default)
}

} // verus!
