//! Stack variants and a bracket-matching application.

use vstd::prelude::*;
use vstd::string::StrSliceExecFns;

verus! {

/// A stack that wraps a `Vec`.
#[derive(Debug, Clone)]
pub struct Stack<T> {
    pub data: Vec<T>,
}

impl<T> Stack<T> {
    /// Creates an empty stack.
    pub fn new() -> (s: Self)
        ensures
            s.data@.len() == 0,
    {
        Self { data: Vec::<T>::new() }
    }
}

/// A stack of fixed capacity `N`, stored inline; `len` entries are in use.
#[derive(Debug, Clone, Copy)]
pub struct StackStatic<T, const N: usize> {
    pub data: [T; N],
    pub len: usize,
}

/// A linked stack: each node owns its successor.
#[derive(Debug)]
pub struct LinkStack<T> {
    pub data: T,
    pub next: Option<Box<LinkStack<T>>>,
}

impl<T> LinkStack<T> {
    /// Creates a single node with no successor.
    pub fn new(data: T) -> (s: Self)
        ensures
            s.data == data,
            s.next is None,
    {
        Self { data, next: None }
    }
}

/// `c` opens one of the three recognized bracket pairs.
pub open spec fn is_open(c: char) -> bool {
    c == '(' || c == '[' || c == '{'
}

/// `c` closes one of the three recognized bracket pairs.
pub open spec fn is_close(c: char) -> bool {
    c == ')' || c == ']' || c == '}'
}

/// The opening bracket matching a closing one.
pub open spec fn opener_for(c: char) -> char
    recommends
        is_close(c),
{
    if c == ')' {
        '('
    } else if c == ']' {
        '['
    } else {
        '{'
    }
}

/// Runs the bracket-matching stack machine over `s[i..]`, starting with the
/// given stack of unmatched openers: every closing bracket must match the
/// most recent unmatched opener, and at the end nothing may remain open.
/// Characters that are not brackets are ignored.
pub open spec fn balanced_from(s: Seq<char>, i: int, stack: Seq<char>) -> bool
    decreases s.len() - i,
{
    if i < 0 || i >= s.len() {
        stack.len() == 0
    } else {
        let c = s[i];
        if is_open(c) {
            balanced_from(s, i + 1, stack.push(c))
        } else if is_close(c) {
            stack.len() > 0 && stack.last() == opener_for(c) && balanced_from(
                s,
                i + 1,
                stack.drop_last(),
            )
        } else {
            balanced_from(s, i + 1, stack)
        }
    }
}

/// The brackets of `s` are properly nested and matched.
pub open spec fn balanced(s: Seq<char>) -> bool {
    balanced_from(s, 0, Seq::empty())
}

/// Bracket matching: reports whether the brackets in `s` are properly nested
/// and matched, ignoring every other character.
pub fn check_bracket(s: &str) -> (r: bool)
    ensures
        r == balanced(s@),
{
    let len = s.unicode_len();
    let mut stack: Vec<char> = Vec::new();
    let mut i: usize = 0;
    while i < len
        invariant
            len == s@.len(),
            i <= len,
            balanced(s@) == balanced_from(s@, i as int, stack@),
        decreases len - i,
    {
        let c = s.get_char(i);
        if c == '(' || c == '[' || c == '{' {
            stack.push(c);
        } else if c == ')' || c == ']' || c == '}' {
            let opener = if c == ')' {
                '('
            } else if c == ']' {
                '['
            } else {
                '{'
            };
            let ghost prev = stack@;
            match stack.pop() {
                Some(top) => {
                    if top != opener {
                        return false;
                    }
                    proof {
                        assert(stack@ =~= prev.drop_last());
                    }
                },
                None => {
                    return false;
                },
            }
        }
        i = i + 1;
    }
    stack.len() == 0
}

} // verus!
