use vstd::prelude::*;

use crate::arrange::numbered;
use crate::models::QueueElementForQueue;
use crate::repo::{listed, names_view};
use crate::text::{
    chars_of, decimal, i32_of, lines_of, parse_i32, push_decimal, split_lines, string_of, trim_text,
    trimmed,
};

verus! {

/// Why the arguments of a command were refused.
#[derive(Clone, Copy, Debug, PartialEq, Eq, Structural)]
pub enum CommandError {
    /// The part after `^` is not an `i32` in decimal.
    InvalidNumber,
}

/// The index of the first `^` in `s` at or after `from`, or `s.len()` when
/// there is none.
pub open spec fn caret_from(s: Seq<char>, from: nat) -> nat
    decreases s.len() - from,
{
    if from >= s.len() {
        s.len()
    } else if s[from as int] == '^' {
        from
    } else {
        caret_from(s, from + 1)
    }
}

/// The text between the first `^` of `s` and the next one (or the end).
pub open spec fn number_part(s: Seq<char>) -> Seq<char> {
    let c = caret_from(s, 0);
    s.subrange((c + 1) as int, caret_from(s, c + 1) as int)
}

/// The lines of `text`, each trimmed.
pub open spec fn trimmed_lines(text: Seq<char>) -> Seq<Seq<char>> {
    lines_of(text).map_values(|l: Seq<char>| trimmed(l))
}

/// The text line of one element: its position, `) ` and its name.
pub open spec fn element_line(e: QueueElementForQueue) -> Seq<char> {
    decimal(e.queue_place as int) + seq![')', ' '] + e.element_name@
}

/// The lines of `rows`, joined with `\n`.
pub open spec fn element_lines(rows: Seq<QueueElementForQueue>) -> Seq<char>
    decreases rows.len(),
{
    if rows.len() == 0 {
        Seq::empty()
    } else if rows.len() == 1 {
        element_line(rows[0])
    } else {
        element_lines(rows.drop_last()) + seq!['\n'] + element_line(rows.last())
    }
}

/// The text of a queue: its name on a line of its own, if it has one, then
/// its element lines.
pub open spec fn queue_text(name: Option<Seq<char>>, rows: Seq<QueueElementForQueue>) -> Seq<char> {
    match name {
        Some(n) => n + seq!['\n'] + element_lines(rows),
        None => element_lines(rows),
    }
}

proof fn lemma_caret_step(s: Seq<char>, i: nat)
    requires
        i < s.len(),
        s[i as int] != '^',
    ensures
        caret_from(s, i) == caret_from(s, i + 1),
{
}

/// Finds the first `^` at or after `from`.
fn find_caret(cs: &Vec<char>, from: usize) -> (r: usize)
    requires
        from <= cs.len(),
    ensures
        r == caret_from(cs@, from as nat),
        from <= r <= cs.len(),
{
    let mut i: usize = from;
    while i < cs.len() && cs[i] != '^'
        invariant
            from <= i <= cs.len(),
            caret_from(cs@, from as nat) == caret_from(cs@, i as nat),
        decreases cs.len() - i,
    {
        proof {
            lemma_caret_step(cs@, i as nat);
        }
        i += 1;
    }
    i
}

/// The characters `from..to` of `cs`, as a string.
fn piece(cs: &Vec<char>, from: usize, to: usize) -> (r: String)
    requires
        from <= to <= cs.len(),
    ensures
        r@ == cs@.subrange(from as int, to as int),
{
    let mut part: Vec<char> = Vec::new();
    let mut i: usize = from;
    while i < to
        invariant
            from <= i <= to <= cs.len(),
            part@ == cs@.subrange(from as int, i as int),
        decreases to - i,
    {
        part.push(cs[i]);
        i += 1;
        assert(part@ =~= cs@.subrange(from as int, i as int));
    }
    string_of(&part)
}

/// Reads the arguments `name` or `name ^ position`: the text before the
/// first `^`, trimmed, and the text after it (up to a second `^`, if any),
/// trimmed and read as an `i32`.
pub fn accept_string_and_number(input: String) -> (r: Result<(String, Option<i32>), CommandError>)
    ensures
        ({
            let s = input@;
            let c = caret_from(s, 0);
            match r {
                Ok((name, number)) => name@ == trimmed(s.subrange(0, c as int)) && if c == s.len() {
                    number is None
                } else {
                    i32_of(trimmed(number_part(s))) is Some && number == i32_of(trimmed(number_part(s)))
                },
                Err(e) => c < s.len() && i32_of(trimmed(number_part(s))) is None && e == CommandError::InvalidNumber,
            }
        }),
{
    let cs = chars_of(input.as_str());
    let c = find_caret(&cs, 0);
    let name = trim_text(piece(&cs, 0, c).as_str());
    if c == cs.len() {
        return Ok((name, None));
    }
    let end = find_caret(&cs, c + 1);
    let number_text = trim_text(piece(&cs, c + 1, end).as_str());
    match parse_i32(number_text.as_str()) {
        Some(n) => Ok((name, Some(n))),
        None => Err(CommandError::InvalidNumber),
    }
}

/// Reads an optional argument: the trimmed input, or `None` when nothing but
/// whitespace was given.
pub fn accept_string_opt(input: String) -> (r: Option<String>)
    ensures
        match r {
            Some(s) => s@ == trimmed(input@) && s@.len() > 0,
            None => trimmed(input@).len() == 0,
        },
{
    let t = trim_text(input.as_str());
    if t.as_str().is_empty() {
        None
    } else {
        Some(t)
    }
}

/// The elements that a text gives: one per line, trimmed, numbered from 1;
/// `None` when the text has more lines than positions can number.
pub fn elements_from_text(text: &str) -> (r: Option<Vec<QueueElementForQueue>>)
    ensures
        match r {
            Some(rows) => listed(rows@, trimmed_lines(text@)),
            None => lines_of(text@).len() > i32::MAX,
        },
{
    let lines = split_lines(text);
    if lines.len() > i32::MAX as usize {
        return None;
    }
    let mut names: Vec<String> = Vec::new();
    let mut i: usize = 0;
    while i < lines.len()
        invariant
            names_view(lines@) == lines_of(text@),
            lines.len() <= i32::MAX,
            i <= lines.len(),
            names.len() == i,
            forall|j: int| 0 <= j < i ==> (#[trigger] names@[j])@ == trimmed(lines@[j]@),
        decreases lines.len() - i,
    {
        names.push(trim_text(lines[i].as_str()));
        i += 1;
    }
    assert(names_view(names@) =~= trimmed_lines(text@));
    Some(numbered(names))
}

proof fn lemma_lines_step(rows: Seq<QueueElementForQueue>, i: int)
    requires
        0 <= i < rows.len(),
    ensures
        element_lines(rows.subrange(0, i + 1)) == if i == 0 {
            element_line(rows[0])
        } else {
            element_lines(rows.subrange(0, i)) + seq!['\n'] + element_line(rows[i])
        },
{
    let next = rows.subrange(0, i + 1);
    assert(next.drop_last() =~= rows.subrange(0, i));
    assert(next.last() == rows[i]);
}

fn push_str_chars(out: &mut Vec<char>, s: &str)
    ensures
        final(out)@ == old(out)@ + s@,
{
    let mut cs = chars_of(s);
    out.append(&mut cs);
}

/// The text of a queue: its name (if any) on the first line, then one line
/// `position) name` per element, joined with `\n`.
pub fn format_queue(queue_name: Option<&str>, queue_elems: &[QueueElementForQueue]) -> (r: String)
    ensures
        r@ == queue_text(
            match queue_name {
                Some(n) => Some(n@),
                None => None,
            },
            queue_elems@,
        ),
{
    let mut out: Vec<char> = Vec::new();
    let ghost head: Seq<char> = match queue_name {
        Some(n) => n@ + seq!['\n'],
        None => Seq::empty(),
    };
    match queue_name {
        Some(n) => {
            push_str_chars(&mut out, n);
            out.push('\n');
        },
        None => {},
    }
    assert(out@ =~= head + element_lines(queue_elems@.subrange(0, 0)));
    let mut i: usize = 0;
    while i < queue_elems.len()
        invariant
            i <= queue_elems.len(),
            out@ == head + element_lines(queue_elems@.subrange(0, i as int)),
        decreases queue_elems.len() - i,
    {
        let ghost before = out@;
        if i > 0 {
            out.push('\n');
        }
        let e = &queue_elems[i];
        push_decimal(&mut out, e.queue_place);
        out.push(')');
        out.push(' ');
        push_str_chars(&mut out, e.element_name.as_str());
        proof {
            lemma_lines_step(queue_elems@, i as int);
            if i == 0 {
                assert(out@ =~= head + element_line(queue_elems@[0]));
            } else {
                assert(out@ =~= before + seq!['\n'] + element_line(queue_elems@[i as int]));
            }
        }
        i += 1;
    }
    assert(queue_elems@.subrange(0, queue_elems.len() as int) =~= queue_elems@);
    string_of(&out)
}

} // verus!
