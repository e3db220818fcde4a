//! Which templates are plain substitution: text in which `{{ name }}` stands
//! for the value of a parameter, and nothing else is asked of the expander.

use crate::text::chars_of;
use vstd::prelude::*;

verus! {

/// Whether `c` may begin a parameter's name: a letter or `_`.
pub open spec fn is_name_start(c: char) -> bool {
    let n = c as u32;
    (97 <= n && n <= 122) || (65 <= n && n <= 90) || n == 95
}

/// Whether `c` may stand in a parameter's name: a letter, a digit or `_`.
pub open spec fn is_name_char(c: char) -> bool {
    let n = c as u32;
    is_name_start(c) || (48 <= n && n <= 57)
}

/// Where the spaces that begin at `i` end.
pub open spec fn spaces_end(s: Seq<char>, i: int) -> int
    decreases s.len() - i,
{
    if 0 <= i < s.len() && s[i] == ' ' {
        spaces_end(s, i + 1)
    } else {
        i
    }
}

/// Where the name characters that begin at `i` end.
pub open spec fn name_end(s: Seq<char>, i: int) -> int
    decreases s.len() - i,
{
    if 0 <= i < s.len() && is_name_char(s[i]) {
        name_end(s, i + 1)
    } else {
        i
    }
}

/// Where the substitution that opens with `{{` at `i` ends: after spaces, a
/// name, spaces and `}}`. `None` where anything else stands there.
pub open spec fn substitution_end(s: Seq<char>, i: int) -> Option<int> {
    let name = spaces_end(s, i + 2);
    let after = spaces_end(s, name_end(s, name));
    if 0 <= name < s.len() && is_name_start(s[name]) && 0 <= after && after + 1 < s.len()
        && s[after] == '}' && s[after + 1] == '}' {
        Some(after + 2)
    } else {
        None
    }
}

/// Whether the text from `i` on is plain.
pub open spec fn plain_from(s: Seq<char>, i: int) -> bool
    decreases s.len() - i,
{
    if i < 0 || i >= s.len() {
        true
    } else if s[i] != '{' || i + 1 >= s.len() {
        plain_from(s, i + 1)
    } else if s[i + 1] == '{' {
        match substitution_end(s, i) {
            Some(end) => if end > i {
                plain_from(s, end)
            } else {
                false
            },
            None => false,
        }
    } else if s[i + 1] == '%' || s[i + 1] == '#' {
        false
    } else {
        plain_from(s, i + 1)
    }
}

/// Whether a template is plain substitution: it holds neither `{%` nor `{#`,
/// and every `{{` opens a substitution that is a single name between `{{`
/// and `}}`, with nothing but spaces around the name.
pub open spec fn plain_template(s: Seq<char>) -> bool {
    plain_from(s, 0)
}

/// Finds where the spaces that begin at `from` end.
fn skip_spaces(v: &Vec<char>, from: usize) -> (end: usize)
    requires
        from <= v@.len(),
    ensures
        end == spaces_end(v@, from as int),
        from <= end <= v@.len(),
{
    let mut i: usize = from;
    while i < v.len() && v[i] == ' '
        invariant
            from <= i <= v@.len(),
            spaces_end(v@, from as int) == spaces_end(v@, i as int),
        decreases v@.len() - i,
    {
        i += 1;
    }
    i
}

fn name_start(c: char) -> (b: bool)
    ensures
        b == is_name_start(c),
{
    let n: u32 = c as u32;
    (97 <= n && n <= 122) || (65 <= n && n <= 90) || n == 95
}

fn name_char(c: char) -> (b: bool)
    ensures
        b == is_name_char(c),
{
    let n: u32 = c as u32;
    name_start(c) || (48 <= n && n <= 57)
}

/// Finds where the name characters that begin at `from` end.
fn skip_name(v: &Vec<char>, from: usize) -> (end: usize)
    requires
        from <= v@.len(),
    ensures
        end == name_end(v@, from as int),
        from <= end <= v@.len(),
{
    let mut i: usize = from;
    while i < v.len() && name_char(v[i])
        invariant
            from <= i <= v@.len(),
            name_end(v@, from as int) == name_end(v@, i as int),
        decreases v@.len() - i,
    {
        i += 1;
    }
    i
}

/// Whether a template is plain substitution.
pub fn is_plain_template(template: &str) -> (b: bool)
    ensures
        b == plain_template(template@),
{
    let v: Vec<char> = chars_of(template);
    let n: usize = v.len();
    let mut i: usize = 0;
    while i < n
        invariant
            i <= n,
            n == v@.len(),
            v@ == template@,
            plain_template(template@) == plain_from(v@, i as int),
        decreases n - i,
    {
        if v[i] != '{' || n - i < 2 {
            i += 1;
        } else if v[i + 1] == '{' {
            let name: usize = skip_spaces(&v, i + 2);
            let after: usize = skip_spaces(&v, skip_name(&v, name));
            if name < n && name_start(v[name]) && n - after >= 2 && v[after] == '}' && v[after
                + 1] == '}' {
                i = after + 2;
            } else {
                return false;
            }
        } else if v[i + 1] == '%' || v[i + 1] == '#' {
            return false;
        } else {
            i += 1;
        }
    }
    true
}

} // verus!
