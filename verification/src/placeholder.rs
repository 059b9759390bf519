//! Placeholders: the `${NAME}` tokens of a template, their substitution from
//! a register, and their use as wildcards when a response is checked.

use vstd::prelude::*;
use crate::cut::Register;
use crate::error::{Fault, FrError};
use crate::text::{chars_of, push_char, string_of};
use vstd::string::StringExecFns;

verus! {

/// The characters that a variable's name is made of: ASCII letters, digits
/// and the underscore.
pub open spec fn is_name_char(c: char) -> bool {
    ('a' <= c && c <= 'z') || ('A' <= c && c <= 'Z') || ('0' <= c && c <= '9') || c == '_'
}

/// How many name characters stand in a row from `from` on.
pub open spec fn name_run(s: Seq<char>, from: int) -> nat
    decreases s.len() - from,
{
    if 0 <= from < s.len() && is_name_char(s[from]) {
        1 + name_run(s, from + 1)
    } else {
        0
    }
}

/// A placeholder `${NAME}` starts at `at`: a dollar sign, an opening brace, a
/// name of at least one character, and a closing brace.
pub open spec fn token_at(s: Seq<char>, at: int) -> bool {
    &&& 0 <= at
    &&& at + 3 < s.len()
    &&& s[at] == '$'
    &&& s[at + 1] == '{'
    &&& name_run(s, at + 2) > 0
    &&& at + 2 + name_run(s, at + 2) < s.len()
    &&& s[at + 2 + name_run(s, at + 2)] == '}'
}

/// The name of the placeholder that starts at `at`.
pub open spec fn token_name(s: Seq<char>, at: int) -> Seq<char> {
    s.subrange(at + 2, at + 2 + name_run(s, at + 2))
}

/// The position just behind the placeholder that starts at `at`.
pub open spec fn token_end(s: Seq<char>, at: int) -> int {
    at + 3 + name_run(s, at + 2)
}

/// An escaped placeholder `\${NAME}` starts at `at`.
pub open spec fn escaped_at(s: Seq<char>, at: int) -> bool {
    0 <= at < s.len() && s[at] == '\\' && token_at(s, at + 1)
}

/// Puts `head` in front of a text that was resolved; a failure stays.
pub open spec fn prepend(head: Seq<char>, rest: Result<Seq<char>, Seq<char>>) -> Result<
    Seq<char>,
    Seq<char>,
> {
    match rest {
        Ok(tail) => Ok(head + tail),
        Err(name) => Err(name),
    }
}

/// The text from `at` on with its placeholders resolved, or the name of the
/// first placeholder that has no value. An escaped placeholder loses its
/// backslash and is otherwise kept as it stands.
pub open spec fn resolved_from(s: Seq<char>, at: int, vars: Map<Seq<char>, Seq<char>>) -> Result<
    Seq<char>,
    Seq<char>,
>
    decreases s.len() - at,
{
    if at < 0 || at >= s.len() {
        Ok(Seq::empty())
    } else if escaped_at(s, at) {
        prepend(
            s.subrange(at + 1, token_end(s, at + 1)),
            resolved_from(s, token_end(s, at + 1), vars),
        )
    } else if token_at(s, at) {
        if vars.contains_key(token_name(s, at)) {
            prepend(vars[token_name(s, at)], resolved_from(s, token_end(s, at), vars))
        } else {
            Err(token_name(s, at))
        }
    } else {
        prepend(seq![s[at]], resolved_from(s, at + 1, vars))
    }
}

/// A whole text with its placeholders resolved.
pub open spec fn resolved_text(s: Seq<char>, vars: Map<Seq<char>, Seq<char>>) -> Result<
    Seq<char>,
    Seq<char>,
> {
    resolved_from(s, 0, vars)
}

/// The text holds no placeholder, escaped or not.
pub open spec fn plain_text(s: Seq<char>) -> bool {
    forall|at: int| !token_at(s, at)
}

/// The text is one placeholder and nothing else.
pub open spec fn is_wildcard(s: Seq<char>) -> bool {
    token_at(s, 0) && token_end(s, 0) == s.len()
}

proof fn lemma_prepend_twice(a: Seq<char>, b: Seq<char>, rest: Result<Seq<char>, Seq<char>>)
    ensures
        prepend(a, prepend(b, rest)) == prepend(a + b, rest),
{
    if let Ok(tail) = rest {
        assert(a + (b + tail) =~= (a + b) + tail);
    }
}

/// A stretch of name characters that something else ends is a whole run.
pub proof fn lemma_name_run_exact(s: Seq<char>, from: int, to: int)
    requires
        0 <= from <= to <= s.len(),
        forall|i: int| from <= i < to ==> is_name_char(#[trigger] s[i]),
        to < s.len() ==> !is_name_char(s[to]),
    ensures
        name_run(s, from) == to - from,
    decreases to - from,
{
    if from < to {
        lemma_name_run_exact(s, from + 1, to);
    }
}

/// Whether `c` may stand in a variable's name.
pub fn name_char(c: char) -> (r: bool)
    ensures
        r == is_name_char(c),
{
    (c >= 'a' && c <= 'z') || (c >= 'A' && c <= 'Z') || (c >= '0' && c <= '9') || c == '_'
}

/// The length of the run of name characters that starts at `from`.
fn name_length(chars: &Vec<char>, from: usize) -> (n: usize)
    requires
        from <= chars.len(),
    ensures
        n == name_run(chars@, from as int),
        from + n <= chars.len(),
{
    let mut to: usize = from;
    while to < chars.len() && name_char(chars[to])
        invariant
            from <= to <= chars.len(),
            forall|i: int| from <= i < to ==> is_name_char(#[trigger] chars@[i]),
        decreases chars.len() - to,
    {
        to += 1;
    }
    proof {
        lemma_name_run_exact(chars@, from as int, to as int);
    }
    to - from
}

/// The length of the name of the placeholder that starts at `at`, or 0 where
/// none starts there.
fn token_length(chars: &Vec<char>, at: usize) -> (n: usize)
    ensures
        (n > 0) == token_at(chars@, at as int),
        n > 0 ==> n == name_run(chars@, at + 2) && at + 3 + n <= chars.len(),
{
    let len = chars.len();
    if at >= len || len - at < 4 {
        return 0;
    }
    if chars[at] != '$' || chars[at + 1] != '{' {
        return 0;
    }
    let n = name_length(chars, at + 2);
    if n == 0 || at + 2 + n >= len {
        return 0;
    }
    if chars[at + 2 + n] != '}' {
        return 0;
    }
    n
}

/// Whether a text is one placeholder and nothing else.
pub fn wildcard(text: &str) -> (r: bool)
    ensures
        r == is_wildcard(text@),
{
    let chars = chars_of(text);
    let n = token_length(&chars, 0);
    n > 0 && chars.len() - 3 == n
}

/// Replaces every placeholder of `text` by its variable's value and takes the
/// backslash off every escaped placeholder. Fails on the first placeholder
/// whose variable the register does not hold.
pub fn resolve_text(text: &str, register: &Register) -> (r: Result<String, FrError>)
    requires
        register.well_formed(),
    ensures
        r matches Ok(out) ==> resolved_text(text@, register@) == Ok::<Seq<char>, Seq<char>>(out@),
        r matches Err(e) ==> resolved_text(text@, register@) is Err && e@
            == Fault::MissingVariable(resolved_text(text@, register@)->Err_0),
{
    let chars = chars_of(text);
    let ghost s = chars@;
    let ghost vars = register@;
    let mut out = String::new();
    let mut at: usize = 0;
    proof {
        assert(Seq::<char>::empty() + Seq::<char>::empty() =~= Seq::<char>::empty());
        if let Ok(tail) = resolved_from(s, 0, vars) {
            assert(Seq::<char>::empty() + tail =~= tail);
        }
    }
    while at < chars.len()
        invariant
            at <= chars.len(),
            s == chars@,
            s == text@,
            vars == register@,
            register.well_formed(),
            resolved_text(s, vars) == prepend(out@, resolved_from(s, at as int, vars)),
        decreases chars.len() - at,
    {
        let ghost sofar = out@;
        let escaped = if chars[at] == '\\' {
            token_length(&chars, at + 1)
        } else {
            0
        };
        if escaped > 0 {
            let end = at + 4 + escaped;
            let mut i: usize = at + 1;
            while i < end
                invariant
                    at < i <= end <= chars.len(),
                    s == chars@,
                    out@ == sofar + s.subrange(at + 1, i as int),
                decreases end - i,
            {
                push_char(&mut out, chars[i]);
                i += 1;
                proof {
                    assert(s.subrange(at + 1, i as int) =~= s.subrange(at + 1, i - 1).push(
                        s[i - 1],
                    ));
                    assert(sofar + s.subrange(at + 1, i - 1).push(s[i - 1]) =~= (sofar + s.subrange(
                        at + 1,
                        i - 1,
                    )).push(s[i - 1]));
                }
            }
            proof {
                lemma_prepend_twice(
                    sofar,
                    s.subrange(at + 1, end as int),
                    resolved_from(s, end as int, vars),
                );
            }
            at = end;
        } else {
            let n = token_length(&chars, at);
            if n > 0 {
                let name = string_of(&chars, at + 2, at + 2 + n);
                match register.get(name.as_str()) {
                    Some(value) => {
                        out.append(value.as_str());
                        proof {
                            lemma_prepend_twice(
                                sofar,
                                value@,
                                resolved_from(s, at + 3 + n, vars),
                            );
                        }
                    },
                    None => {
                        return Err(FrError::MissingVariable(name));
                    },
                }
                at = at + 3 + n;
            } else {
                push_char(&mut out, chars[at]);
                proof {
                    lemma_prepend_twice(sofar, seq![s[at as int]], resolved_from(s, at + 1, vars));
                    assert(sofar + seq![s[at as int]] =~= sofar.push(s[at as int]));
                }
                at += 1;
            }
        }
    }
    proof {
        assert(out@ + Seq::<char>::empty() =~= out@);
    }
    Ok(out)
}

/// From `at` on, a text without placeholders resolves to itself.
proof fn lemma_plain_from(s: Seq<char>, at: int, vars: Map<Seq<char>, Seq<char>>)
    requires
        plain_text(s),
        0 <= at <= s.len(),
    ensures
        resolved_from(s, at, vars) == Ok::<Seq<char>, Seq<char>>(s.skip(at)),
    decreases s.len() - at,
{
    if at < s.len() {
        lemma_plain_from(s, at + 1, vars);
        assert(!token_at(s, at));
        assert(!token_at(s, at + 1));
        assert(seq![s[at]] + s.skip(at + 1) =~= s.skip(at));
    } else {
        assert(s.skip(at) =~= Seq::<char>::empty());
    }
}

/// Resolving a text that holds no placeholder, escaped or not, returns it
/// unchanged, whatever the register holds.
pub proof fn law_plain_text_unchanged(s: Seq<char>, vars: Map<Seq<char>, Seq<char>>)
    requires
        plain_text(s),
    ensures
        resolved_text(s, vars) == Ok::<Seq<char>, Seq<char>>(s),
{
    lemma_plain_from(s, 0, vars);
    assert(s.skip(0) =~= s);
}

/// The text of the placeholder for `name`.
pub open spec fn placeholder_for(name: Seq<char>) -> Seq<char> {
    seq!['$', '{'] + name + seq!['}']
}

/// An escaped placeholder resolves to the placeholder's own text: the
/// backslash goes, and no value is put in, whether or not the register holds
/// the name.
pub proof fn law_escaped_survives(name: Seq<char>, vars: Map<Seq<char>, Seq<char>>)
    requires
        name.len() > 0,
        forall|i: int| 0 <= i < name.len() ==> is_name_char(#[trigger] name[i]),
    ensures
        resolved_text(seq!['\\'] + placeholder_for(name), vars) == Ok::<Seq<char>, Seq<char>>(
            placeholder_for(name),
        ),
{
    let s = seq!['\\'] + placeholder_for(name);
    let end: int = 3 + name.len() as int;
    assert(s.len() == end + 1);
    assert(s[0] == '\\' && s[1] == '$' && s[2] == '{');
    assert forall|i: int| 3 <= i < end implies is_name_char(#[trigger] s[i]) by {
        assert(s[i] == name[i - 3]);
    }
    assert(s[end] == '}');
    lemma_name_run_exact(s, 3, end);
    assert(token_at(s, 1));
    assert(escaped_at(s, 0));
    assert(token_end(s, 1) == s.len());
    assert(resolved_from(s, s.len() as int, vars) == Ok::<Seq<char>, Seq<char>>(Seq::empty()));
    assert(s.subrange(1, s.len() as int) =~= placeholder_for(name));
    assert(placeholder_for(name) + Seq::<char>::empty() =~= placeholder_for(name));
}

} // verus!
