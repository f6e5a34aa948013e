//! The persisted text format, as specification functions.
//!
//! A collection is stored as a pretty-printed JSON array of task records:
//!
//! ```text
//! [
//!   {
//!     "id": 1,
//!     "description": "buy milk",
//!     "done": false
//!   }
//! ]
//! ```
//!
//! An empty collection is stored as `[]`. In descriptions, the quote and the
//! backslash are backslash-escaped, the named JSON control-character escapes
//! (`\b`, `\f`, `\n`, `\r`, `\t`) are used where they exist, every other
//! control character below U+0020 is written as `\u00XX`, and every remaining
//! character stands for itself — so the written text is valid JSON.

use vstd::prelude::*;

use crate::digits::dec_rep;
use crate::task::TaskView;

verus! {

/// Start of a record, up to the id value: `  {\n    "id": `.
pub open spec fn seg_task_a() -> Seq<char> {
    seq![' ', ' ', '{', '\n', ' ', ' ', ' ', ' ', '"', 'i', 'd', '"', ':', ' ']
}

/// Between the id value and the description value's opening quote:
/// `,\n    "description": "`.
pub open spec fn seg_task_b() -> Seq<char> {
    seq![
        ',',
        '\n',
        ' ',
        ' ',
        ' ',
        ' ',
        '"',
        'd',
        'e',
        's',
        'c',
        'r',
        'i',
        'p',
        't',
        'i',
        'o',
        'n',
        '"',
        ':',
        ' ',
        '"',
    ]
}

/// Between the description value's closing quote and the done value:
/// `,\n    "done": `.
pub open spec fn seg_after_desc() -> Seq<char> {
    seq![',', '\n', ' ', ' ', ' ', ' ', '"', 'd', 'o', 'n', 'e', '"', ':', ' ']
}

/// End of a record: `\n  }`.
pub open spec fn seg_task_d() -> Seq<char> {
    seq!['\n', ' ', ' ', '}']
}

/// Start of a nonempty document: `[\n`.
pub open spec fn seg_open() -> Seq<char> {
    seq!['[', '\n']
}

/// Between two records: `,\n`.
pub open spec fn seg_sep() -> Seq<char> {
    seq![',', '\n']
}

/// End of a nonempty document: `\n]`.
pub open spec fn seg_close() -> Seq<char> {
    seq!['\n', ']']
}

/// The empty document: `[]`.
pub open spec fn empty_doc() -> Seq<char> {
    seq!['[', ']']
}

/// The text of a boolean value.
pub open spec fn bool_rep(b: bool) -> Seq<char> {
    if b {
        seq!['t', 'r', 'u', 'e']
    } else {
        seq!['f', 'a', 'l', 's', 'e']
    }
}

/// The lower-case character for one hexadecimal digit value.
pub open spec fn hex_digit(d: int) -> char
    recommends
        0 <= d < 16,
{
    if d < 10 {
        (d + ('0' as int)) as char
    } else {
        (d - 10 + ('a' as int)) as char
    }
}

/// The escape of one description character.
pub open spec fn esc_char(c: char) -> Seq<char> {
    if c == '"' {
        seq!['\\', '"']
    } else if c == '\\' {
        seq!['\\', '\\']
    } else if c == '\u{8}' {
        seq!['\\', 'b']
    } else if c == '\u{c}' {
        seq!['\\', 'f']
    } else if c == '\n' {
        seq!['\\', 'n']
    } else if c == '\r' {
        seq!['\\', 'r']
    } else if c == '\t' {
        seq!['\\', 't']
    } else if (c as u32) < 0x20 {
        seq![
            '\\',
            'u',
            '0',
            '0',
            hex_digit(((c as u32) / 16) as int),
            hex_digit(((c as u32) % 16) as int),
        ]
    } else {
        seq![c]
    }
}

/// The escaped form of a description.
pub open spec fn esc(s: Seq<char>) -> Seq<char>
    decreases s.len(),
{
    if s.len() == 0 {
        Seq::empty()
    } else {
        esc_char(s[0]) + esc(s.drop_first())
    }
}

/// Escaping a sequence extended by one character appends that character's
/// escape.
pub proof fn lemma_esc_push(s: Seq<char>, c: char)
    ensures
        esc(s.push(c)) == esc(s) + esc_char(c),
    decreases s.len(),
{
    if s.len() == 0 {
        assert(s.push(c)[0] == c);
        assert(s =~= Seq::<char>::empty());
        assert(s.push(c).drop_first() =~= s);
        assert(esc(s.push(c)) == esc_char(c) + esc(s));
        assert(esc(s) == Seq::<char>::empty());
        assert(esc_char(c) + esc(s) =~= esc(s) + esc_char(c));
    } else {
        assert(s.push(c).drop_first() =~= s.drop_first().push(c));
        lemma_esc_push(s.drop_first(), c);
        assert(s.push(c)[0] == s[0]);
        assert(esc(s.push(c)) == esc_char(s[0]) + esc(s.drop_first().push(c)));
        assert(esc(s.push(c)) == esc_char(s[0]) + (esc(s.drop_first()) + esc_char(c)));
        assert(esc(s) == esc_char(s[0]) + esc(s.drop_first()));
        assert(esc_char(s[0]) + (esc(s.drop_first()) + esc_char(c)) =~= (esc_char(s[0]) + esc(
            s.drop_first(),
        )) + esc_char(c));
    }
}

/// The text of one task record.
pub open spec fn ser_task(t: TaskView) -> Seq<char> {
    seg_task_a() + dec_rep(t.id as int) + seg_task_b() + esc(t.description) + seq!['"']
        + seg_after_desc() + bool_rep(t.done) + seg_task_d()
}

/// The text of every task after the first, each preceded by the separator.
pub open spec fn ser_rest(ts: Seq<TaskView>) -> Seq<char>
    decreases ts.len(),
{
    if ts.len() == 0 {
        Seq::empty()
    } else {
        seg_sep() + ser_task(ts[0]) + ser_rest(ts.drop_first())
    }
}

/// The text of a whole collection.
pub open spec fn ser_doc(ts: Seq<TaskView>) -> Seq<char> {
    if ts.len() == 0 {
        empty_doc()
    } else {
        seg_open() + ser_task(ts[0]) + ser_rest(ts.drop_first()) + seg_close()
    }
}

/// Serializing a sequence of tasks extended by one task appends a separator
/// and that task's record.
pub proof fn lemma_ser_rest_push(ts: Seq<TaskView>, t: TaskView)
    ensures
        ser_rest(ts.push(t)) == ser_rest(ts) + seg_sep() + ser_task(t),
    decreases ts.len(),
{
    if ts.len() == 0 {
        assert(ts.push(t)[0] == t);
        assert(ts =~= Seq::<TaskView>::empty());
        assert(ts.push(t).drop_first() =~= ts);
        assert(ser_rest(ts.push(t)) == seg_sep() + ser_task(t) + ser_rest(ts));
        assert(ser_rest(ts) == Seq::<char>::empty());
        assert(seg_sep() + ser_task(t) + ser_rest(ts) =~= ser_rest(ts) + seg_sep() + ser_task(t));
    } else {
        assert(ts.push(t).drop_first() =~= ts.drop_first().push(t));
        lemma_ser_rest_push(ts.drop_first(), t);
        assert(ts.push(t)[0] == ts[0]);
        assert(ser_rest(ts.push(t)) == seg_sep() + ser_task(ts[0]) + ser_rest(
            ts.drop_first().push(t),
        ));
        assert(ser_rest(ts.push(t)) == seg_sep() + ser_task(ts[0]) + (ser_rest(ts.drop_first())
            + seg_sep() + ser_task(t)));
        assert(ser_rest(ts) == seg_sep() + ser_task(ts[0]) + ser_rest(ts.drop_first()));
        assert(seg_sep() + ser_task(ts[0]) + (ser_rest(ts.drop_first()) + seg_sep() + ser_task(t))
            =~= (seg_sep() + ser_task(ts[0]) + ser_rest(ts.drop_first())) + seg_sep() + ser_task(
            t,
        ));
    }
}

} // verus!
