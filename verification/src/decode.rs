//! Reading a task collection back from the persisted text format.
//!
//! The reader accepts JSON for this record shape: a single array of objects
//! holding exactly the fields `id` (an unsigned integer that fits in `u64`),
//! `description` (a string with the standard JSON escapes, surrogate pairs
//! included) and `done` (a boolean), each exactly once and in any order, with
//! JSON whitespace between tokens. The specification-level parser below
//! defines what a document means; the executable parser is verified to agree
//! with it, and `tasks_from_json` returns the empty collection for any text
//! that is not a document.

use vstd::prelude::*;
use vstd::arithmetic::div_mod::lemma_fundamental_div_mod;

use crate::digits::{digit_val, digits_val, is_digit, lemma_digits_val_nonneg};
use crate::format::bool_rep;
use crate::task::{Task, TaskView, views};
use crate::text::{chars_to_string, str_to_chars};

verus! {

/// Whether the character is JSON whitespace.
pub open spec fn is_ws(c: char) -> bool {
    c == ' ' || c == '\t' || c == '\n' || c == '\r'
}

/// The first position at or after `i` that does not hold whitespace.
pub open spec fn skip_ws(s: Seq<char>, i: int) -> int
    recommends
        0 <= i <= s.len(),
    decreases s.len() - i,
{
    if 0 <= i < s.len() && is_ws(s[i]) {
        skip_ws(s, i + 1)
    } else {
        i
    }
}

/// Whether the given text stands at this position.
pub open spec fn lit_at(s: Seq<char>, i: int, lit: Seq<char>) -> bool {
    &&& 0 <= i
    &&& i + lit.len() <= s.len()
    &&& s.subrange(i, i + lit.len()) == lit
}

/// The first position at or after `i` that does not hold a digit.
pub open spec fn digit_end(s: Seq<char>, i: int) -> int
    recommends
        0 <= i <= s.len(),
    decreases s.len() - i,
{
    if 0 <= i < s.len() && is_digit(s[i]) {
        digit_end(s, i + 1)
    } else {
        i
    }
}

/// A JSON integer at this position: at least one digit, no leading zero,
/// value within `u64`. Returns the value and the position after the digits.
pub open spec fn parse_number(s: Seq<char>, i: int) -> Option<(u64, int)> {
    let j = digit_end(s, i);
    if j == i {
        None
    } else if j - i > 1 && s[i] == '0' {
        None
    } else {
        let v = digits_val(s.subrange(i, j));
        if 0 <= v <= u64::MAX {
            Some((v as u64, j))
        } else {
            None
        }
    }
}

/// Whether the character is a hexadecimal digit.
pub open spec fn is_hex_digit(c: char) -> bool {
    ('0' <= c <= '9') || ('a' <= c <= 'f') || ('A' <= c <= 'F')
}

/// The value of one hexadecimal digit character.
pub open spec fn hex_val(c: char) -> int {
    if '0' <= c <= '9' {
        c as int - '0' as int
    } else if 'a' <= c <= 'f' {
        c as int - 'a' as int + 10
    } else {
        c as int - 'A' as int + 10
    }
}

/// Whether four hexadecimal digits stand at this position.
pub open spec fn hex4_at(s: Seq<char>, i: int) -> bool {
    &&& 0 <= i
    &&& i + 4 <= s.len()
    &&& is_hex_digit(s[i])
    &&& is_hex_digit(s[i + 1])
    &&& is_hex_digit(s[i + 2])
    &&& is_hex_digit(s[i + 3])
}

/// The value of the four hexadecimal digits at this position.
pub open spec fn hex4_val(s: Seq<char>, i: int) -> int
    recommends
        hex4_at(s, i),
{
    hex_val(s[i]) * 4096 + hex_val(s[i + 1]) * 256 + hex_val(s[i + 2]) * 16 + hex_val(s[i + 3])
}

/// The unescaped meaning of the character following a backslash (besides
/// `u`, which opens a four-digit escape).
pub open spec fn unesc(c: char) -> Option<char> {
    if c == '"' {
        Some('"')
    } else if c == '\\' {
        Some('\\')
    } else if c == '/' {
        Some('/')
    } else if c == 'b' {
        Some('\u{8}')
    } else if c == 'f' {
        Some('\u{c}')
    } else if c == 'n' {
        Some('\n')
    } else if c == 'r' {
        Some('\r')
    } else if c == 't' {
        Some('\t')
    } else {
        None
    }
}

/// A JSON string body at this position, up to and including its closing
/// quote: named escapes, `\uXXXX` escapes with surrogate pairs for the
/// supplementary planes, no raw control characters. Returns the unescaped
/// content and the position after the quote.
pub open spec fn parse_string_body(s: Seq<char>, i: int) -> Option<(Seq<char>, int)>
    recommends
        0 <= i,
    decreases s.len() - i,
{
    if i < 0 || i >= s.len() {
        None
    } else if s[i] == '"' {
        Some((Seq::empty(), i + 1))
    } else if s[i] == '\\' {
        if i + 1 >= s.len() {
            None
        } else if s[i + 1] == 'u' {
            if !hex4_at(s, i + 2) {
                None
            } else {
                let v = hex4_val(s, i + 2);
                if v < 0xD800 || v >= 0xE000 {
                    match parse_string_body(s, i + 6) {
                        None => None,
                        Some((rest, j)) => Some((seq![v as char] + rest, j)),
                    }
                } else if v < 0xDC00 {
                    if i + 8 <= s.len() && s[i + 6] == '\\' && s[i + 7] == 'u' && hex4_at(
                        s,
                        i + 8,
                    ) {
                        let w = hex4_val(s, i + 8);
                        if 0xDC00 <= w < 0xE000 {
                            let cp = 0x10000 + (v - 0xD800) * 0x400 + (w - 0xDC00);
                            match parse_string_body(s, i + 12) {
                                None => None,
                                Some((rest, j)) => Some((seq![cp as char] + rest, j)),
                            }
                        } else {
                            None
                        }
                    } else {
                        None
                    }
                } else {
                    None
                }
            }
        } else {
            match unesc(s[i + 1]) {
                None => None,
                Some(c) => match parse_string_body(s, i + 2) {
                    None => None,
                    Some((rest, j)) => Some((seq![c] + rest, j)),
                },
            }
        }
    } else if (s[i] as u32) < 0x20 {
        None
    } else {
        match parse_string_body(s, i + 1) {
            None => None,
            Some((rest, j)) => Some((seq![s[i]] + rest, j)),
        }
    }
}

/// A boolean value at this position.
pub open spec fn parse_bool(s: Seq<char>, i: int) -> Option<(bool, int)> {
    if lit_at(s, i, bool_rep(true)) {
        Some((true, i + 4))
    } else if lit_at(s, i, bool_rep(false)) {
        Some((false, i + 5))
    } else {
        None
    }
}

/// The characters of the `id` field name.
pub open spec fn key_id() -> Seq<char> {
    seq!['i', 'd']
}

/// The characters of the `description` field name.
pub open spec fn key_description() -> Seq<char> {
    seq!['d', 'e', 's', 'c', 'r', 'i', 'p', 't', 'i', 'o', 'n']
}

/// The characters of the `done` field name.
pub open spec fn key_done() -> Seq<char> {
    seq!['d', 'o', 'n', 'e']
}

/// One member's value at this position, dispatched by the member's key. A
/// known key whose field was already seen, or an unknown key, fails. Returns
/// the updated fields and the position after the value.
pub open spec fn parse_member_value(
    s: Seq<char>,
    v: int,
    key: Seq<char>,
    id: Option<u64>,
    description: Option<Seq<char>>,
    done: Option<bool>,
) -> Option<(Option<u64>, Option<Seq<char>>, Option<bool>, int)>
    recommends
        0 <= v,
{
    if key == key_id() {
        if id is Some {
            None
        } else {
            let w = skip_ws(s, v);
            match parse_number(s, w) {
                None => None,
                Some((n, m)) => Some((Some(n), description, done, m)),
            }
        }
    } else if key == key_description() {
        if description is Some {
            None
        } else {
            let w = skip_ws(s, v);
            if w >= s.len() || s[w] != '"' {
                None
            } else {
                match parse_string_body(s, w + 1) {
                    None => None,
                    Some((d, m)) => Some((id, Some(d), done, m)),
                }
            }
        }
    } else if key == key_done() {
        if done is Some {
            None
        } else {
            let w = skip_ws(s, v);
            match parse_bool(s, w) {
                None => None,
                Some((b, m)) => Some((id, description, Some(b), m)),
            }
        }
    } else {
        None
    }
}

/// The members of a record object from this position (after the opening
/// brace or a separating comma) to the closing brace. All three fields must
/// appear, each exactly once. Returns the task and the position after the
/// brace.
pub open spec fn parse_members(
    s: Seq<char>,
    i: int,
    id: Option<u64>,
    description: Option<Seq<char>>,
    done: Option<bool>,
) -> Option<(TaskView, int)>
    recommends
        0 <= i,
    decreases s.len() - i,
{
    let j = skip_ws(s, i);
    if j >= s.len() || s[j] != '"' {
        None
    } else {
        match parse_string_body(s, j + 1) {
            None => None,
            Some((key, k)) => {
                let c = skip_ws(s, k);
                if c >= s.len() || s[c] != ':' {
                    None
                } else {
                    match parse_member_value(s, c + 1, key, id, description, done) {
                        None => None,
                        Some((id2, desc2, done2, m)) => {
                            let e = skip_ws(s, m);
                            if e >= s.len() {
                                None
                            } else if s[e] == ',' {
                                if i < e + 1 <= s.len() {
                                    parse_members(s, e + 1, id2, desc2, done2)
                                } else {
                                    None
                                }
                            } else if s[e] == '}' {
                                match (id2, desc2, done2) {
                                    (Some(a), Some(b), Some(c2)) => Some(
                                        (TaskView { id: a, description: b, done: c2 }, e + 1),
                                    ),
                                    _ => None,
                                }
                            } else {
                                None
                            }
                        },
                    }
                }
            },
        }
    }
}

/// One task record at this position: whitespace, an opening brace, and the
/// three members. Returns the task and the position after the closing brace.
pub open spec fn parse_task(s: Seq<char>, i: int) -> Option<(TaskView, int)>
    recommends
        0 <= i,
{
    let j = skip_ws(s, i);
    if j < s.len() && s[j] == '{' {
        parse_members(s, j + 1, None, None, None)
    } else {
        None
    }
}

/// The records after the first one: either the array's closing bracket, or a
/// separating comma, a record, and more. Returns the remaining tasks and the
/// position after the bracket.
pub open spec fn parse_tasks_rest(s: Seq<char>, i: int) -> Option<(Seq<TaskView>, int)>
    recommends
        0 <= i,
    decreases s.len() - i,
{
    let j = skip_ws(s, i);
    if j >= s.len() {
        None
    } else if s[j] == ']' {
        Some((Seq::empty(), j + 1))
    } else if s[j] == ',' {
        match parse_task(s, j + 1) {
            None => None,
            Some((t, k)) => {
                if i < k <= s.len() {
                    match parse_tasks_rest(s, k) {
                        None => None,
                        Some((ts, m)) => Some((seq![t] + ts, m)),
                    }
                } else {
                    None
                }
            },
        }
    } else {
        None
    }
}

/// A whole document: the collection it denotes, if the text is one array of
/// task records with nothing but whitespace after it.
pub open spec fn parse_doc(s: Seq<char>) -> Option<Seq<TaskView>> {
    let i0 = skip_ws(s, 0);
    if i0 >= s.len() || s[i0] != '[' {
        None
    } else {
        let i1 = skip_ws(s, i0 + 1);
        if i1 < s.len() && s[i1] == ']' {
            if skip_ws(s, i1 + 1) == s.len() {
                Some(Seq::empty())
            } else {
                None
            }
        } else {
            match parse_task(s, i0 + 1) {
                None => None,
                Some((t, j)) => {
                    if 0 <= j <= s.len() {
                        match parse_tasks_rest(s, j) {
                            None => None,
                            Some((ts, k)) => {
                                if skip_ws(s, k) == s.len() {
                                    Some(seq![t] + ts)
                                } else {
                                    None
                                }
                            },
                        }
                    } else {
                        None
                    }
                },
            }
        }
    }
}

/// Relies on `char::from_u32`: the result is the character of that code
/// point for every Unicode scalar value, and nothing otherwise.
pub assume_specification[ char::from_u32 ](i: u32) -> (r: Option<char>)
    ensures
        (i < 0xD800 || (0xE000 <= i <= 0x10FFFF)) ==> r == Some(i as char),
        !(i < 0xD800 || (0xE000 <= i <= 0x10FFFF)) ==> r is None,
;

/// The position after any whitespace, computed.
fn skip_ws_exec(s: &Vec<char>, i: usize) -> (j: usize)
    requires
        i <= s@.len(),
    ensures
        j == skip_ws(s@, i as int),
        i <= j <= s@.len(),
{
    let n = s.len();
    let mut j = i;
    while j < n && (s[j] == ' ' || s[j] == '\t' || s[j] == '\n' || s[j] == '\r')
        invariant
            i <= j <= n,
            n == s@.len(),
            skip_ws(s@, i as int) == skip_ws(s@, j as int),
        decreases n - j,
    {
        j += 1;
    }
    j
}

/// Whether the pattern stands at this position.
fn lit_at_exec(s: &Vec<char>, i: usize, pat: &Vec<char>) -> (r: bool)
    requires
        i <= s@.len(),
    ensures
        r == lit_at(s@, i as int, pat@),
{
    let m = pat.len();
    let n = s.len();
    if n - i < m {
        return false;
    }
    let mut k: usize = 0;
    while k < m
        invariant
            0 <= k <= m,
            m == pat@.len(),
            n == s@.len(),
            i + m <= n,
            forall|q: int| 0 <= q < k ==> s@[i + q] == pat@[q],
        decreases m - k,
    {
        if s[i + k] != pat[k] {
            proof {
                if lit_at(s@, i as int, pat@) {
                    let ki = k as int;
                    assert(s@.subrange(i as int, i as int + m as int)[ki] == pat@[ki]);
                }
            }
            return false;
        }
        k += 1;
    }
    proof {
        assert(s@.subrange(i as int, i as int + m as int) =~= pat@);
    }
    true
}

/// Whether two character sequences are equal, computed.
fn chars_eq(a: &Vec<char>, b: &Vec<char>) -> (r: bool)
    ensures
        r == (a@ == b@),
{
    let n = a.len();
    if b.len() != n {
        proof {
            assert(a@ != b@);
        }
        return false;
    }
    let mut k: usize = 0;
    while k < n
        invariant
            0 <= k <= n,
            n == a@.len() == b@.len(),
            forall|q: int| 0 <= q < k ==> a@[q] == b@[q],
        decreases n - k,
    {
        if a[k] != b[k] {
            return false;
        }
        k += 1;
    }
    proof {
        assert(a@ =~= b@);
    }
    true
}

/// Whether the character is a decimal digit.
fn is_digit_exec(c: char) -> (r: bool)
    ensures
        r == is_digit(c),
{
    '0' <= c && c <= '9'
}

/// Every position before the digit end holds a digit, and the digit end is
/// the position of the first non-digit.
proof fn lemma_digit_end(s: Seq<char>, i: int)
    requires
        0 <= i <= s.len(),
    ensures
        i <= digit_end(s, i) <= s.len(),
        forall|q: int| i <= q < digit_end(s, i) ==> is_digit(#[trigger] s[q]),
        digit_end(s, i) == s.len() || !is_digit(s[digit_end(s, i)]),
    decreases s.len() - i,
{
    if i < s.len() && is_digit(s[i]) {
        lemma_digit_end(s, i + 1);
    }
}

/// The digit end, computed.
fn find_digit_end(s: &Vec<char>, i: usize) -> (j: usize)
    requires
        i <= s@.len(),
    ensures
        j == digit_end(s@, i as int),
        i <= j <= s@.len(),
{
    let n = s.len();
    let mut j = i;
    while j < n && is_digit_exec(s[j])
        invariant
            i <= j <= n,
            n == s@.len(),
            digit_end(s@, i as int) == digit_end(s@, j as int),
        decreases n - j,
    {
        j += 1;
    }
    j
}

/// A number at this position, computed: the digits' value when the token is
/// a JSON integer that fits in a `u64`.
fn parse_number_exec(s: &Vec<char>, i: usize) -> (r: Option<(u64, usize)>)
    requires
        i <= s@.len(),
    ensures
        match r {
            Some(p) => {
                &&& parse_number(s@, i as int) == Some((p.0, p.1 as int))
                &&& i < p.1 <= s@.len()
            },
            None => parse_number(s@, i as int) is None,
        },
{
    let j = find_digit_end(s, i);
    proof {
        lemma_digit_end(s@, i as int);
    }
    if j == i {
        return None;
    }
    if j - i > 1 && s[i] == '0' {
        return None;
    }
    let ghost whole = s@.subrange(i as int, j as int);
    let mut acc: u64 = 0;
    let mut over = false;
    let mut k = i;
    while k < j
        invariant
            i <= k <= j <= s@.len(),
            j == digit_end(s@, i as int),
            forall|q: int| i <= q < j ==> is_digit(#[trigger] s@[q]),
            !over ==> acc == digits_val(s@.subrange(i as int, k as int)),
            over ==> digits_val(s@.subrange(i as int, k as int)) > u64::MAX,
        decreases j - k,
    {
        let c = s[k];
        let d = ((c as u32) - 48) as u64;
        proof {
            assert(is_digit(c));
            assert(d == digit_val(c));
            assert(s@.subrange(i as int, k as int + 1).drop_last() =~= s@.subrange(
                i as int,
                k as int,
            ));
            assert(s@.subrange(i as int, k as int + 1).last() == c);
            assert(digits_val(s@.subrange(i as int, k as int + 1)) == digits_val(
                s@.subrange(i as int, k as int),
            ) * 10 + digit_val(c));
        }
        if over {
            proof {
                let prev = digits_val(s@.subrange(i as int, k as int));
                assert(prev * 10 + digit_val(c) > u64::MAX) by (nonlinear_arith)
                    requires
                        prev > u64::MAX,
                        digit_val(c) >= 0,
                ;
            }
        } else if acc > (u64::MAX - d) / 10 {
            over = true;
            proof {
                let m = (u64::MAX - d) as int;
                lemma_fundamental_div_mod(m, 10);
                assert(acc as int >= m / 10 + 1);
                assert(acc as int * 10 >= (m / 10 + 1) * 10) by (nonlinear_arith)
                    requires
                        acc as int >= m / 10 + 1,
                ;
                assert((m / 10 + 1) * 10 == (m / 10) * 10 + 10) by (nonlinear_arith);
                assert(acc as int * 10 + d > u64::MAX);
            }
        } else {
            proof {
                let m = (u64::MAX - d) as int;
                lemma_fundamental_div_mod(m, 10);
                assert(acc as int <= m / 10);
                assert(acc as int * 10 <= (m / 10) * 10) by (nonlinear_arith)
                    requires
                        acc as int <= m / 10,
                ;
                assert(acc as int * 10 + d <= u64::MAX);
            }
            acc = acc * 10 + d;
        }
        k += 1;
    }
    proof {
        assert(s@.subrange(i as int, j as int) == whole);
        assert(forall|q: int| 0 <= q < whole.len() ==> is_digit(#[trigger] whole[q]));
        lemma_digits_val_nonneg(whole);
    }
    if over {
        None
    } else {
        Some((acc, j))
    }
}

/// Whether the character is a hexadecimal digit, computed.
fn is_hex_digit_exec(c: char) -> (r: bool)
    ensures
        r == is_hex_digit(c),
{
    ('0' <= c && c <= '9') || ('a' <= c && c <= 'f') || ('A' <= c && c <= 'F')
}

/// The value of one hexadecimal digit, computed.
fn hex_val_exec(c: char) -> (r: u32)
    requires
        is_hex_digit(c),
    ensures
        r == hex_val(c),
        r < 16,
{
    if '0' <= c && c <= '9' {
        (c as u32) - 48
    } else if 'a' <= c && c <= 'f' {
        (c as u32) - 97 + 10
    } else {
        (c as u32) - 65 + 10
    }
}

/// The four-digit escape value at this position, when four hexadecimal
/// digits stand there.
fn hex4_exec(s: &Vec<char>, i: usize) -> (r: Option<u32>)
    requires
        i <= s@.len(),
    ensures
        match r {
            Some(v) => hex4_at(s@, i as int) && v == hex4_val(s@, i as int) && v < 0x10000,
            None => !hex4_at(s@, i as int),
        },
{
    let n = s.len();
    if n - i < 4 {
        return None;
    }
    if !is_hex_digit_exec(s[i]) || !is_hex_digit_exec(s[i + 1]) || !is_hex_digit_exec(s[i + 2])
        || !is_hex_digit_exec(s[i + 3]) {
        return None;
    }
    let v = hex_val_exec(s[i]) * 4096 + hex_val_exec(s[i + 1]) * 256 + hex_val_exec(s[i + 2]) * 16
        + hex_val_exec(s[i + 3]);
    Some(v)
}

/// A string body at this position, computed.
fn parse_string_body_exec(s: &Vec<char>, i: usize) -> (r: Option<(Vec<char>, usize)>)
    requires
        i <= s@.len(),
    ensures
        match r {
            Some(p) => parse_string_body(s@, i as int) == Some((p.0@, p.1 as int)) && i < p.1
                <= s@.len(),
            None => parse_string_body(s@, i as int) is None,
        },
{
    let n = s.len();
    let mut acc: Vec<char> = Vec::new();
    let mut k = i;
    loop
        invariant
            i <= k <= n,
            n == s@.len(),
            parse_string_body(s@, i as int) == match parse_string_body(s@, k as int) {
                None => None::<(Seq<char>, int)>,
                Some((rest, j)) => Some((acc@ + rest, j)),
            },
        decreases n - k,
    {
        if k >= n {
            return None;
        }
        let c = s[k];
        if c == '"' {
            proof {
                assert(parse_string_body(s@, k as int) == Some(
                    (Seq::<char>::empty(), k as int + 1),
                ));
                assert(acc@ + Seq::<char>::empty() =~= acc@);
                assert(parse_string_body(s@, i as int) == Some((acc@, k as int + 1)));
            }
            return Some((acc, k + 1));
        } else if c == '\\' {
            if k + 1 >= n {
                return None;
            }
            let e = s[k + 1];
            if e == 'u' {
                let v = match hex4_exec(s, k + 2) {
                    None => {
                        return None;
                    },
                    Some(v) => v,
                };
                if v < 0xD800 || v >= 0xE000 {
                    let u = match char::from_u32(v) {
                        Some(u) => u,
                        None => {
                            proof {
                                assert(false);
                            }
                            return None;
                        },
                    };
                    let ghost acc_old = acc@;
                    acc.push(u);
                    proof {
                        let r2 = parse_string_body(s@, k as int + 6);
                        match r2 {
                            None => {
                                assert(parse_string_body(s@, k as int) is None);
                            },
                            Some((rest, j)) => {
                                assert(parse_string_body(s@, k as int) == Some(
                                    (seq![u] + rest, j),
                                ));
                                assert(acc_old + (seq![u] + rest) =~= acc@ + rest);
                            },
                        }
                    }
                    k += 6;
                } else if v < 0xDC00 {
                    proof {
                        assert(k + 6 <= n);
                    }
                    if !(n - (k + 6) >= 2 && s[k + 6] == '\\' && s[k + 7] == 'u') {
                        return None;
                    }
                    let w = match hex4_exec(s, k + 8) {
                        None => {
                            return None;
                        },
                        Some(w) => w,
                    };
                    if !(0xDC00 <= w && w < 0xE000) {
                        return None;
                    }
                    let cp: u32 = 0x10000 + (v - 0xD800) * 0x400 + (w - 0xDC00);
                    let u = match char::from_u32(cp) {
                        Some(u) => u,
                        None => {
                            proof {
                                assert(false);
                            }
                            return None;
                        },
                    };
                    let ghost acc_old = acc@;
                    acc.push(u);
                    proof {
                        let r2 = parse_string_body(s@, k as int + 12);
                        match r2 {
                            None => {
                                assert(parse_string_body(s@, k as int) is None);
                            },
                            Some((rest, j)) => {
                                assert(parse_string_body(s@, k as int) == Some(
                                    (seq![u] + rest, j),
                                ));
                                assert(acc_old + (seq![u] + rest) =~= acc@ + rest);
                            },
                        }
                    }
                    k += 12;
                } else {
                    return None;
                }
            } else {
                let u: char = if e == '"' {
                    '"'
                } else if e == '\\' {
                    '\\'
                } else if e == '/' {
                    '/'
                } else if e == 'b' {
                    '\u{8}'
                } else if e == 'f' {
                    '\u{c}'
                } else if e == 'n' {
                    '\n'
                } else if e == 'r' {
                    '\r'
                } else if e == 't' {
                    '\t'
                } else {
                    proof {
                        assert(unesc(e) is None);
                        assert(parse_string_body(s@, k as int) is None);
                    }
                    return None;
                };
                proof {
                    assert(unesc(e) == Some(u));
                }
                let ghost acc_old = acc@;
                acc.push(u);
                proof {
                    let r2 = parse_string_body(s@, k as int + 2);
                    match r2 {
                        None => {
                            assert(parse_string_body(s@, k as int) is None);
                        },
                        Some((rest, j)) => {
                            assert(parse_string_body(s@, k as int) == Some((seq![u] + rest, j)));
                            assert(acc_old + (seq![u] + rest) =~= acc@ + rest);
                        },
                    }
                }
                k += 2;
            }
        } else if (c as u32) < 0x20 {
            return None;
        } else {
            let ghost acc_old = acc@;
            acc.push(c);
            proof {
                let r2 = parse_string_body(s@, k as int + 1);
                match r2 {
                    None => {
                        assert(parse_string_body(s@, k as int) is None);
                    },
                    Some((rest, j)) => {
                        assert(parse_string_body(s@, k as int) == Some((seq![c] + rest, j)));
                        assert(acc_old + (seq![c] + rest) =~= acc@ + rest);
                    },
                }
            }
            k += 1;
        }
    }
}

/// A boolean value at this position, computed.
fn parse_bool_exec(s: &Vec<char>, i: usize) -> (r: Option<(bool, usize)>)
    requires
        i <= s@.len(),
    ensures
        match r {
            Some(p) => parse_bool(s@, i as int) == Some((p.0, p.1 as int)) && i < p.1
                <= s@.len(),
            None => parse_bool(s@, i as int) is None,
        },
{
    let n = s.len();
    let mut tpat: Vec<char> = Vec::new();
    crate::encode::push_bool(&mut tpat, true);
    if lit_at_exec(s, i, &tpat) {
        proof {
            assert(i + 4 <= n);
        }
        return Some((true, i + 4));
    }
    let mut fpat: Vec<char> = Vec::new();
    crate::encode::push_bool(&mut fpat, false);
    if lit_at_exec(s, i, &fpat) {
        proof {
            assert(i + 5 <= n);
        }
        return Some((false, i + 5));
    }
    None
}

/// The view of an optional description being collected.
pub open spec fn opt_chars_view(d: &Option<Vec<char>>) -> Option<Seq<char>> {
    match d {
        Some(v) => Some(v@),
        None => None,
    }
}

/// The members of a record object, computed.
fn parse_members_exec(s: &Vec<char>, i: usize) -> (r: Option<(Task, usize)>)
    requires
        i <= s@.len(),
    ensures
        match r {
            Some(p) => parse_members(s@, i as int, None, None, None) == Some(
                (p.0@, p.1 as int),
            ) && p.1 <= s@.len(),
            None => parse_members(s@, i as int, None, None, None) is None,
        },
{
    let n = s.len();
    let mut pat_id: Vec<char> = Vec::new();
    pat_id.push('i');
    pat_id.push('d');
    proof {
        assert(pat_id@ =~= key_id());
    }
    let mut pat_desc: Vec<char> = Vec::new();
    pat_desc.push('d');
    pat_desc.push('e');
    pat_desc.push('s');
    pat_desc.push('c');
    pat_desc.push('r');
    pat_desc.push('i');
    pat_desc.push('p');
    pat_desc.push('t');
    pat_desc.push('i');
    pat_desc.push('o');
    pat_desc.push('n');
    proof {
        assert(pat_desc@ =~= key_description());
    }
    let mut pat_done: Vec<char> = Vec::new();
    pat_done.push('d');
    pat_done.push('o');
    pat_done.push('n');
    pat_done.push('e');
    proof {
        assert(pat_done@ =~= key_done());
    }
    let mut cur_id: Option<u64> = None;
    let mut cur_desc: Option<Vec<char>> = None;
    let mut cur_done: Option<bool> = None;
    let mut k = i;
    loop
        invariant
            i <= k <= n,
            n == s@.len(),
            pat_id@ == key_id(),
            pat_desc@ == key_description(),
            pat_done@ == key_done(),
            parse_members(s@, i as int, None, None, None) == parse_members(
                s@,
                k as int,
                cur_id,
                opt_chars_view(&cur_desc),
                cur_done,
            ),
        decreases n - k,
    {
        let ghost gid = cur_id;
        let ghost gdesc = opt_chars_view(&cur_desc);
        let ghost gdone = cur_done;
        let j = skip_ws_exec(s, k);
        if j >= n || s[j] != '"' {
            return None;
        }
        let (key, kk) = match parse_string_body_exec(s, j + 1) {
            None => {
                return None;
            },
            Some(p) => p,
        };
        let c = skip_ws_exec(s, kk);
        if c >= n || s[c] != ':' {
            return None;
        }
        let v = c + 1;
        let ghost step = parse_member_value(s@, v as int, key@, gid, gdesc, gdone);
        let m: usize;
        if chars_eq(&key, &pat_id) {
            if cur_id.is_some() {
                return None;
            }
            let w = skip_ws_exec(s, v);
            match parse_number_exec(s, w) {
                None => {
                    return None;
                },
                Some((a, m2)) => {
                    cur_id = Some(a);
                    m = m2;
                },
            }
        } else if chars_eq(&key, &pat_desc) {
            if cur_desc.is_some() {
                return None;
            }
            let w = skip_ws_exec(s, v);
            if w >= n || s[w] != '"' {
                return None;
            }
            match parse_string_body_exec(s, w + 1) {
                None => {
                    return None;
                },
                Some((d, m2)) => {
                    cur_desc = Some(d);
                    m = m2;
                },
            }
        } else if chars_eq(&key, &pat_done) {
            if cur_done.is_some() {
                return None;
            }
            let w = skip_ws_exec(s, v);
            match parse_bool_exec(s, w) {
                None => {
                    return None;
                },
                Some((b, m2)) => {
                    cur_done = Some(b);
                    m = m2;
                },
            }
        } else {
            return None;
        }
        proof {
            assert(step == Some((cur_id, opt_chars_view(&cur_desc), cur_done, m as int)));
        }
        let e = skip_ws_exec(s, m);
        if e >= n {
            return None;
        }
        if s[e] == ',' {
            k = e + 1;
        } else if s[e] == '}' {
            match (cur_id, cur_desc, cur_done) {
                (Some(a), Some(d), Some(b)) => {
                    let description = chars_to_string(&d);
                    let task = Task { id: a, description, done: b };
                    proof {
                        assert(parse_members(s@, i as int, None, None, None) == Some(
                            (task@, e as int + 1),
                        ));
                    }
                    return Some((task, e + 1));
                },
                _ => {
                    return None;
                },
            }
        } else {
            return None;
        }
    }
}

/// One task record at this position, computed.
fn parse_task_exec(s: &Vec<char>, i: usize) -> (r: Option<(Task, usize)>)
    requires
        i <= s@.len(),
    ensures
        match r {
            Some(p) => parse_task(s@, i as int) == Some((p.0@, p.1 as int)) && p.1 <= s@.len(),
            None => parse_task(s@, i as int) is None,
        },
{
    let n = s.len();
    let j = skip_ws_exec(s, i);
    if j < n && s[j] == '{' {
        parse_members_exec(s, j + 1)
    } else {
        None
    }
}

/// The records after the first one, computed.
fn parse_tasks_rest_exec(s: &Vec<char>, i: usize) -> (r: Option<(Vec<Task>, usize)>)
    requires
        i <= s@.len(),
    ensures
        match r {
            Some(p) => parse_tasks_rest(s@, i as int) == Some((views(p.0@), p.1 as int)) && p.1
                <= s@.len(),
            None => parse_tasks_rest(s@, i as int) is None,
        },
{
    let n = s.len();
    let mut acc: Vec<Task> = Vec::new();
    let mut k = i;
    loop
        invariant
            i <= k <= n,
            n == s@.len(),
            parse_tasks_rest(s@, i as int) == match parse_tasks_rest(s@, k as int) {
                None => None::<(Seq<TaskView>, int)>,
                Some((ts, j)) => Some((views(acc@) + ts, j)),
            },
        decreases n - k,
    {
        let j = skip_ws_exec(s, k);
        if j >= n {
            return None;
        }
        if s[j] == ']' {
            proof {
                assert(parse_tasks_rest(s@, k as int) == Some(
                    (Seq::<TaskView>::empty(), j as int + 1),
                ));
                assert(views(acc@) + Seq::<TaskView>::empty() =~= views(acc@));
            }
            return Some((acc, j + 1));
        }
        if s[j] != ',' {
            return None;
        }
        let (t, m) = match parse_task_exec(s, j + 1) {
            None => {
                return None;
            },
            Some(p) => p,
        };
        if m <= k {
            proof {
                assert(parse_task(s@, j as int + 1) == Some((t@, m as int)));
                assert(parse_tasks_rest(s@, k as int) is None);
            }
            return None;
        }
        let ghost acc_old = acc@;
        let ghost tv = t@;
        acc.push(t);
        proof {
            assert(views(acc@) =~= views(acc_old).push(tv));
            let r2 = parse_tasks_rest(s@, m as int);
            match r2 {
                None => {
                    assert(parse_tasks_rest(s@, k as int) is None);
                },
                Some((ts, q)) => {
                    assert(parse_tasks_rest(s@, k as int) == Some((seq![tv] + ts, q)));
                    assert(views(acc_old) + (seq![tv] + ts) =~= views(acc@) + ts);
                },
            }
        }
        k = m;
    }
}

/// A whole document, computed.
fn parse_doc_exec(s: &Vec<char>) -> (r: Option<Vec<Task>>)
    ensures
        match r {
            Some(ts) => parse_doc(s@) == Some(views(ts@)),
            None => parse_doc(s@) is None,
        },
{
    let n = s.len();
    let i0 = skip_ws_exec(s, 0);
    if i0 >= n || s[i0] != '[' {
        return None;
    }
    let i1 = skip_ws_exec(s, i0 + 1);
    if i1 < n && s[i1] == ']' {
        if skip_ws_exec(s, i1 + 1) == n {
            let empty: Vec<Task> = Vec::new();
            proof {
                assert(views(empty@) =~= Seq::<TaskView>::empty());
            }
            return Some(empty);
        } else {
            return None;
        }
    }
    let (t, j) = match parse_task_exec(s, i0 + 1) {
        None => {
            return None;
        },
        Some(p) => p,
    };
    let (rest, k) = match parse_tasks_rest_exec(s, j) {
        None => {
            return None;
        },
        Some(p) => p,
    };
    if skip_ws_exec(s, k) != n {
        return None;
    }
    let ghost tv = t@;
    let ghost rest_views = views(rest@);
    let mut out: Vec<Task> = Vec::new();
    out.push(t);
    let mut rest_mut = rest;
    out.append(&mut rest_mut);
    proof {
        assert(views(out@) =~= seq![tv] + rest_views);
        assert(parse_doc(s@) == Some(seq![tv] + rest_views));
    }
    Some(out)
}

/// The collection a text denotes: the parsed tasks when the text is exactly
/// one document, and the empty collection otherwise.
pub fn tasks_from_json(s: &str) -> (r: Vec<Task>)
    ensures
        views(r@) == match parse_doc(s@) {
            Some(ts) => ts,
            None => Seq::<TaskView>::empty(),
        },
{
    let chars = str_to_chars(s);
    match parse_doc_exec(&chars) {
        Some(tasks) => tasks,
        None => {
            let empty: Vec<Task> = Vec::new();
            proof {
                assert(views(empty@) =~= Seq::<TaskView>::empty());
            }
            empty
        },
    }
}

} // verus!
