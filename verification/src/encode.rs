//! Writing a task collection in the persisted text format.

use vstd::prelude::*;
use vstd::string::StrSliceExecFns;

use crate::digits::u64_to_chars;
use crate::format::{
    bool_rep, esc, lemma_esc_push, lemma_ser_rest_push, seg_after_desc, seg_open,
    seg_sep, seg_task_a, seg_task_b, seg_task_d, ser_doc, ser_rest, ser_task,
};
use crate::task::{Task, views};
use crate::text::chars_to_string;

verus! {

/// The lower-case character of one hexadecimal digit value.
fn hex_digit_char(d: u8) -> (r: char)
    requires
        d < 16,
    ensures
        r == crate::format::hex_digit(d as int),
{
    if d < 10 {
        (48 + d) as char
    } else {
        (87 + d) as char
    }
}

/// Append the escaped form of a description.
fn push_escaped(out: &mut Vec<char>, s: &str)
    ensures
        final(out)@ == old(out)@ + esc(s@),
{
    let n = s.unicode_len();
    let mut i: usize = 0;
    while i < n
        invariant
            n == s@.len(),
            0 <= i <= n,
            out@ == old(out)@ + esc(s@.take(i as int)),
        decreases n - i,
    {
        let c = s.get_char(i);
        if c == '"' {
            out.push('\\');
            out.push('"');
        } else if c == '\\' {
            out.push('\\');
            out.push('\\');
        } else if c == '\u{8}' {
            out.push('\\');
            out.push('b');
        } else if c == '\u{c}' {
            out.push('\\');
            out.push('f');
        } else if c == '\n' {
            out.push('\\');
            out.push('n');
        } else if c == '\r' {
            out.push('\\');
            out.push('r');
        } else if c == '\t' {
            out.push('\\');
            out.push('t');
        } else if (c as u32) < 0x20 {
            out.push('\\');
            out.push('u');
            out.push('0');
            out.push('0');
            out.push(hex_digit_char(((c as u32) / 16) as u8));
            out.push(hex_digit_char(((c as u32) % 16) as u8));
        } else {
            out.push(c);
        }
        proof {
            assert(s@.take(i as int).push(c) =~= s@.take(i as int + 1));
            lemma_esc_push(s@.take(i as int), c);
            assert(out@ =~= old(out)@ + esc(s@.take(i as int + 1)));
        }
        i += 1;
    }
    proof {
        assert(s@.take(n as int) =~= s@);
    }
}

/// Append the text that precedes the id value.
pub(crate) fn push_seg_a(out: &mut Vec<char>)
    ensures
        final(out)@ == old(out)@ + seg_task_a(),
{
    out.push(' ');
    out.push(' ');
    out.push('{');
    out.push('\n');
    out.push(' ');
    out.push(' ');
    out.push(' ');
    out.push(' ');
    out.push('"');
    out.push('i');
    out.push('d');
    out.push('"');
    out.push(':');
    out.push(' ');
    proof {
        assert(out@ =~= old(out)@ + seg_task_a());
    }
}

/// Append the text between the id value and the description value.
pub(crate) fn push_seg_b(out: &mut Vec<char>)
    ensures
        final(out)@ == old(out)@ + seg_task_b(),
{
    out.push(',');
    out.push('\n');
    out.push(' ');
    out.push(' ');
    out.push(' ');
    out.push(' ');
    out.push('"');
    out.push('d');
    out.push('e');
    out.push('s');
    out.push('c');
    out.push('r');
    out.push('i');
    out.push('p');
    out.push('t');
    out.push('i');
    out.push('o');
    out.push('n');
    out.push('"');
    out.push(':');
    out.push(' ');
    out.push('"');
    proof {
        assert(out@ =~= old(out)@ + seg_task_b());
    }
}

/// Append the text between the description's closing quote and the done
/// value.
pub(crate) fn push_after_desc(out: &mut Vec<char>)
    ensures
        final(out)@ == old(out)@ + seg_after_desc(),
{
    out.push(',');
    out.push('\n');
    out.push(' ');
    out.push(' ');
    out.push(' ');
    out.push(' ');
    out.push('"');
    out.push('d');
    out.push('o');
    out.push('n');
    out.push('e');
    out.push('"');
    out.push(':');
    out.push(' ');
    proof {
        assert(out@ =~= old(out)@ + seg_after_desc());
    }
}

/// Append a boolean value.
pub(crate) fn push_bool(out: &mut Vec<char>, b: bool)
    ensures
        final(out)@ == old(out)@ + bool_rep(b),
{
    if b {
        out.push('t');
        out.push('r');
        out.push('u');
        out.push('e');
    } else {
        out.push('f');
        out.push('a');
        out.push('l');
        out.push('s');
        out.push('e');
    }
    proof {
        assert(out@ =~= old(out)@ + bool_rep(b));
    }
}

/// Append the text that closes a record.
pub(crate) fn push_seg_d(out: &mut Vec<char>)
    ensures
        final(out)@ == old(out)@ + seg_task_d(),
{
    out.push('\n');
    out.push(' ');
    out.push(' ');
    out.push('}');
    proof {
        assert(out@ =~= old(out)@ + seg_task_d());
    }
}

/// Append the record of one task.
fn push_task(out: &mut Vec<char>, t: &Task)
    ensures
        final(out)@ == old(out)@ + ser_task(t@),
{
    let ghost base = out@;
    push_seg_a(out);
    let mut digits = u64_to_chars(t.id);
    out.append(&mut digits);
    push_seg_b(out);
    push_escaped(out, t.description.as_str());
    out.push('"');
    push_after_desc(out);
    push_bool(out, t.done);
    push_seg_d(out);
    proof {
        assert(out@ =~= base + ser_task(t@));
    }
}

/// The persisted text of a collection, exactly as the format specifies it.
pub fn tasks_to_json(tasks: &Vec<Task>) -> (r: String)
    ensures
        r@ == ser_doc(views(tasks@)),
{
    let mut out: Vec<char> = Vec::new();
    let n = tasks.len();
    if n == 0 {
        out.push('[');
        out.push(']');
        proof {
            assert(out@ =~= ser_doc(views(tasks@)));
        }
    } else {
        out.push('[');
        out.push('\n');
        proof {
            assert(out@ =~= seg_open());
        }
        push_task(&mut out, &tasks[0]);
        let ghost vs = views(tasks@);
        let mut i: usize = 1;
        while i < n
            invariant
                1 <= i <= n,
                n == tasks@.len(),
                vs == views(tasks@),
                vs.len() == n,
                out@ == seg_open() + ser_task(vs[0]) + ser_rest(vs.subrange(1, i as int)),
            decreases n - i,
        {
            let ghost before = out@;
            out.push(',');
            out.push('\n');
            push_task(&mut out, &tasks[i]);
            proof {
                lemma_ser_rest_push(vs.subrange(1, i as int), vs[i as int]);
                assert(vs.subrange(1, i as int).push(vs[i as int]) =~= vs.subrange(
                    1,
                    i as int + 1,
                ));
                assert(out@ =~= before + seg_sep() + ser_task(vs[i as int]));
                assert(out@ =~= seg_open() + ser_task(vs[0]) + ser_rest(
                    vs.subrange(1, i as int + 1),
                ));
            }
            i += 1;
        }
        out.push('\n');
        out.push(']');
        proof {
            assert(vs.subrange(1, n as int) =~= vs.drop_first());
            assert(out@ =~= ser_doc(views(tasks@)));
        }
    }
    chars_to_string(&out)
}

} // verus!
