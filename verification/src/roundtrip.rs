//! Loading a saved collection yields the collection back.
//!
//! The lemmas here relate the writer of `encode` and the reader of `decode`
//! at the specification level: a serialized document, embedded at any
//! position, parses back to exactly the tasks it was written from. The main
//! law is [`lemma_save_load_round_trip`].

use vstd::prelude::*;
use vstd::arithmetic::div_mod::lemma_fundamental_div_mod;

use crate::digits::{dec_rep, digits_val, is_digit, lemma_dec_rep};
use crate::decode::{
    digit_end, hex4_at, hex4_val, hex_val, is_hex_digit, is_ws, key_description, key_done, key_id,
    lit_at, parse_bool, parse_doc, parse_member_value, parse_members, parse_number,
    parse_string_body, parse_task, parse_tasks_rest, skip_ws, unesc,
};
use crate::format::{
    bool_rep, empty_doc, esc, esc_char, hex_digit, seg_after_desc, seg_close, seg_open, seg_sep,
    seg_task_a, seg_task_b, seg_task_d, ser_doc, ser_rest, ser_task,
};
use crate::task::TaskView;

verus! {

/// A subrange of a subrange is a subrange of the whole.
proof fn lemma_sub_of_sub(s: Seq<char>, p: int, l: int, a: int, b: int)
    requires
        0 <= p,
        p + l <= s.len(),
        0 <= a <= b <= l,
    ensures
        s.subrange(p, p + l).subrange(a, b) == s.subrange(p + a, p + b),
{
    assert(s.subrange(p, p + l).subrange(a, b) =~= s.subrange(p + a, p + b));
}

/// The lengths and the pieces of a concatenation of eight texts.
proof fn lemma_parts8(
    x1: Seq<char>,
    x2: Seq<char>,
    x3: Seq<char>,
    x4: Seq<char>,
    x5: Seq<char>,
    x6: Seq<char>,
    x7: Seq<char>,
    x8: Seq<char>,
)
    ensures
        (x1 + x2 + x3 + x4 + x5 + x6 + x7 + x8).len() == x1.len() + x2.len() + x3.len() + x4.len()
            + x5.len() + x6.len() + x7.len() + x8.len(),
        (x1 + x2 + x3 + x4 + x5 + x6 + x7 + x8).subrange(0, x1.len() as int) == x1,
        (x1 + x2 + x3 + x4 + x5 + x6 + x7 + x8).subrange(
            x1.len() as int,
            (x1.len() + x2.len()) as int,
        ) == x2,
        (x1 + x2 + x3 + x4 + x5 + x6 + x7 + x8).subrange(
            (x1.len() + x2.len()) as int,
            (x1.len() + x2.len() + x3.len()) as int,
        ) == x3,
        (x1 + x2 + x3 + x4 + x5 + x6 + x7 + x8).subrange(
            (x1.len() + x2.len() + x3.len()) as int,
            (x1.len() + x2.len() + x3.len() + x4.len()) as int,
        ) == x4,
        (x1 + x2 + x3 + x4 + x5 + x6 + x7 + x8).subrange(
            (x1.len() + x2.len() + x3.len() + x4.len()) as int,
            (x1.len() + x2.len() + x3.len() + x4.len() + x5.len()) as int,
        ) == x5,
        (x1 + x2 + x3 + x4 + x5 + x6 + x7 + x8).subrange(
            (x1.len() + x2.len() + x3.len() + x4.len() + x5.len()) as int,
            (x1.len() + x2.len() + x3.len() + x4.len() + x5.len() + x6.len()) as int,
        ) == x6,
        (x1 + x2 + x3 + x4 + x5 + x6 + x7 + x8).subrange(
            (x1.len() + x2.len() + x3.len() + x4.len() + x5.len() + x6.len()) as int,
            (x1.len() + x2.len() + x3.len() + x4.len() + x5.len() + x6.len() + x7.len()) as int,
        ) == x7,
        (x1 + x2 + x3 + x4 + x5 + x6 + x7 + x8).subrange(
            (x1.len() + x2.len() + x3.len() + x4.len() + x5.len() + x6.len() + x7.len()) as int,
            (x1.len() + x2.len() + x3.len() + x4.len() + x5.len() + x6.len() + x7.len()
                + x8.len()) as int,
        ) == x8,
{
    let t = x1 + x2 + x3 + x4 + x5 + x6 + x7 + x8;
    assert(t.subrange(0, x1.len() as int) =~= x1);
    assert(t.subrange(x1.len() as int, (x1.len() + x2.len()) as int) =~= x2);
    assert(t.subrange((x1.len() + x2.len()) as int, (x1.len() + x2.len() + x3.len()) as int)
        =~= x3);
    assert(t.subrange(
        (x1.len() + x2.len() + x3.len()) as int,
        (x1.len() + x2.len() + x3.len() + x4.len()) as int,
    ) =~= x4);
    assert(t.subrange(
        (x1.len() + x2.len() + x3.len() + x4.len()) as int,
        (x1.len() + x2.len() + x3.len() + x4.len() + x5.len()) as int,
    ) =~= x5);
    assert(t.subrange(
        (x1.len() + x2.len() + x3.len() + x4.len() + x5.len()) as int,
        (x1.len() + x2.len() + x3.len() + x4.len() + x5.len() + x6.len()) as int,
    ) =~= x6);
    assert(t.subrange(
        (x1.len() + x2.len() + x3.len() + x4.len() + x5.len() + x6.len()) as int,
        (x1.len() + x2.len() + x3.len() + x4.len() + x5.len() + x6.len() + x7.len()) as int,
    ) =~= x7);
    assert(t.subrange(
        (x1.len() + x2.len() + x3.len() + x4.len() + x5.len() + x6.len() + x7.len()) as int,
        (x1.len() + x2.len() + x3.len() + x4.len() + x5.len() + x6.len() + x7.len()
            + x8.len()) as int,
    ) =~= x8);
}

/// The lengths and the pieces of a concatenation of three texts.
proof fn lemma_parts3(x1: Seq<char>, x2: Seq<char>, x3: Seq<char>)
    ensures
        (x1 + x2 + x3).len() == x1.len() + x2.len() + x3.len(),
        (x1 + x2 + x3).subrange(0, x1.len() as int) == x1,
        (x1 + x2 + x3).subrange(x1.len() as int, (x1.len() + x2.len()) as int) == x2,
        (x1 + x2 + x3).subrange(
            (x1.len() + x2.len()) as int,
            (x1.len() + x2.len() + x3.len()) as int,
        ) == x3,
{
    let t = x1 + x2 + x3;
    assert(t.subrange(0, x1.len() as int) =~= x1);
    assert(t.subrange(x1.len() as int, (x1.len() + x2.len()) as int) =~= x2);
    assert(t.subrange((x1.len() + x2.len()) as int, (x1.len() + x2.len() + x3.len()) as int)
        =~= x3);
}

/// The first non-whitespace position after a run of whitespace is where the
/// skip stops.
proof fn lemma_skip_ws_run(s: Seq<char>, i: int, j: int)
    requires
        0 <= i <= j <= s.len(),
        forall|q: int| i <= q < j ==> is_ws(#[trigger] s[q]),
        j == s.len() || !is_ws(s[j]),
    ensures
        skip_ws(s, i) == j,
    decreases j - i,
{
    if i < j {
        lemma_skip_ws_run(s, i + 1, j);
    }
}

/// The digit end of a run of digits followed by a non-digit is the position
/// of that non-digit.
proof fn lemma_digit_end_run(s: Seq<char>, i: int, j: int)
    requires
        0 <= i <= j <= s.len(),
        forall|q: int| i <= q < j ==> is_digit(#[trigger] s[q]),
        j == s.len() || !is_digit(s[j]),
    ensures
        digit_end(s, i) == j,
    decreases j - i,
{
    if i < j {
        lemma_digit_end_run(s, i + 1, j);
    }
}

/// A serialized number whose digits stand before a non-digit parses back to
/// itself.
proof fn lemma_parse_number_sub(s: Seq<char>, i: int, n: u64)
    requires
        0 <= i,
        i + dec_rep(n as int).len() < s.len(),
        s.subrange(i, i + dec_rep(n as int).len()) == dec_rep(n as int),
        !is_digit(s[i + dec_rep(n as int).len()]),
    ensures
        parse_number(s, i) == Some((n, i + dec_rep(n as int).len())),
{
    let dec = dec_rep(n as int);
    let j = i + dec.len();
    lemma_dec_rep(n as int);
    assert(forall|q: int| i <= q < j ==> is_digit(#[trigger] s[q])) by {
        assert(forall|q: int| i <= q < j ==> s[q] == s.subrange(i, j)[q - i]);
    }
    lemma_digit_end_run(s, i, j);
    assert(j != i);
    assert(s[i] == dec[0]);
    if j - i > 1 {
        assert(s[i] != '0');
    }
    assert(digits_val(s.subrange(i, j)) == n as int);
}

/// Each hexadecimal digit character carries its value.
proof fn lemma_hex_digit(x: int)
    requires
        0 <= x < 16,
    ensures
        is_hex_digit(hex_digit(x)),
        hex_val(hex_digit(x)) == x,
{
}

/// Escaping a text of plain characters leaves it unchanged.
proof fn lemma_esc_plain(d: Seq<char>)
    requires
        forall|k: int|
            0 <= k < d.len() ==> !(#[trigger] d[k] == '"' || d[k] == '\\' || (d[k] as u32)
                < 0x20),
    ensures
        esc(d) == d,
    decreases d.len(),
{
    if d.len() > 0 {
        assert(esc_char(d[0]) == seq![d[0]]);
        assert(forall|k: int|
            0 <= k < d.drop_first().len() ==> #[trigger] d.drop_first()[k] == d[k + 1]);
        lemma_esc_plain(d.drop_first());
        assert(esc(d) =~= d);
    }
}

/// An escaped description whose characters stand before a closing quote
/// parses back to itself.
#[verifier::rlimit(100)]
proof fn lemma_parse_string_sub(s: Seq<char>, i: int, d: Seq<char>)
    requires
        0 <= i,
        i + esc(d).len() + 1 <= s.len(),
        s.subrange(i, i + esc(d).len()) == esc(d),
        s[i + esc(d).len()] == '"',
    ensures
        parse_string_body(s, i) == Some((d, i + esc(d).len() + 1)),
    decreases d.len(),
{
    assert(forall|q: int|
        i <= q < i + esc(d).len() ==> #[trigger] s[q] == s.subrange(i, i + esc(d).len())[q - i]);
    if d.len() == 0 {
        assert(esc(d) == Seq::<char>::empty());
        assert(s[i] == '"');
    } else {
        let c = d[0];
        let d2 = d.drop_first();
        let ec = esc_char(c);
        assert(esc(d) == ec + esc(d2));
        let i2 = i + ec.len();
        assert(forall|k: int| 0 <= k < ec.len() ==> s[i + k] == ec[k]) by {
            assert(forall|k: int| 0 <= k < ec.len() ==> esc(d)[k] == ec[k]);
        }
        assert(s.subrange(i2, i2 + esc(d2).len()) =~= esc(d2)) by {
            assert(forall|k: int|
                0 <= k < esc(d2).len() ==> #[trigger] esc(d)[ec.len() + k] == esc(d2)[k]);
        }
        lemma_parse_string_sub(s, i2, d2);
        assert(parse_string_body(s, i2) == Some((d2, i + esc(d).len() + 1)));
        if c == '"' || c == '\\' {
            assert(s[i] == '\\' && s[i + 1] == c);
            assert(unesc(s[i + 1]) == Some(c));
        } else if c == '\u{8}' || c == '\u{c}' || c == '\n' || c == '\r' || c == '\t' {
            assert(s[i] == '\\');
            assert(unesc(s[i + 1]) == Some(c));
            assert(s[i + 1] != 'u');
        } else if (c as u32) < 0x20 {
            let cu = (c as u32) as int;
            let hi = cu / 16;
            let lo = cu % 16;
            lemma_fundamental_div_mod(cu, 16);
            assert(0 <= hi && hi < 16 && 0 <= lo && lo < 16);
            lemma_hex_digit(hi);
            lemma_hex_digit(lo);
            assert(ec == seq!['\\', 'u', '0', '0', hex_digit(hi), hex_digit(lo)]);
            assert(s[i] == '\\' && s[i + 1] == 'u');
            assert(s[i + 2] == '0' && s[i + 3] == '0');
            assert(s[i + 4] == hex_digit(hi) && s[i + 5] == hex_digit(lo));
            assert(hex4_at(s, i + 2));
            let v = hex4_val(s, i + 2);
            assert(v == hi * 16 + lo);
            assert(v == cu);
            assert(v < 0x20);
            assert((v as char) == c) by {
                vstd::utf8::char_u32_cast(c, c as u32);
                assert((v as char) == ((c as u32) as char));
            }
            assert(parse_string_body(s, i) == Some((seq![c] + d2, i + esc(d).len() + 1)));
        } else {
            assert(ec == seq![c]);
            assert(s[i] == c);
            assert(s[i] != '"' && s[i] != '\\' && !((s[i] as u32) < 0x20));
        }
        assert(parse_string_body(s, i) == Some((seq![c] + d2, i + esc(d).len() + 1)));
        assert(seq![c] + d2 =~= d);
    }
}

/// A serialized boolean parses back to itself.
proof fn lemma_parse_bool_sub(s: Seq<char>, i: int, b: bool)
    requires
        0 <= i,
        i + bool_rep(b).len() <= s.len(),
        s.subrange(i, i + bool_rep(b).len()) == bool_rep(b),
    ensures
        parse_bool(s, i) == Some((b, i + bool_rep(b).len())),
{
    assert(forall|q: int|
        0 <= q < bool_rep(b).len() ==> #[trigger] s[i + q] == s.subrange(
            i,
            i + bool_rep(b).len(),
        )[q]);
    if b {
        assert(lit_at(s, i, bool_rep(true)));
    } else {
        assert(s[i] == 'f');
        if lit_at(s, i, bool_rep(true)) {
            assert(s.subrange(i, i + 4)[0] == 't');
            assert(false);
        }
        assert(lit_at(s, i, bool_rep(false)));
    }
}

/// The record text of a task, split into the pieces the member walk reads.
/// `p` is where the record's text starts in `s`.
#[verifier::rlimit(100)]
proof fn lemma_task_layout(s: Seq<char>, p: int, t: TaskView)
    requires
        0 <= p,
        p + ser_task(t).len() <= s.len(),
        s.subrange(p, p + ser_task(t).len()) == ser_task(t),
    ensures
        ser_task(t).len() == 55 + dec_rep(t.id as int).len() + esc(t.description).len()
            + bool_rep(t.done).len(),
        forall|k: int|
            0 <= k < ser_task(t).len() ==> #[trigger] s[p + k] == ser_task(t)[k],
        s.subrange(p, p + 14) == seg_task_a(),
        s.subrange(p + 14, p + 14 + dec_rep(t.id as int).len()) == dec_rep(t.id as int),
        s.subrange(
            p + 14 + dec_rep(t.id as int).len(),
            p + 36 + dec_rep(t.id as int).len(),
        ) == seg_task_b(),
        s.subrange(
            p + 36 + dec_rep(t.id as int).len(),
            p + 36 + dec_rep(t.id as int).len() + esc(t.description).len(),
        ) == esc(t.description),
        s[p + 36 + dec_rep(t.id as int).len() + esc(t.description).len()] == '"',
        s.subrange(
            p + 37 + dec_rep(t.id as int).len() + esc(t.description).len(),
            p + 51 + dec_rep(t.id as int).len() + esc(t.description).len(),
        ) == seg_after_desc(),
        s.subrange(
            p + 51 + dec_rep(t.id as int).len() + esc(t.description).len(),
            p + 51 + dec_rep(t.id as int).len() + esc(t.description).len() + bool_rep(
                t.done,
            ).len(),
        ) == bool_rep(t.done),
        s.subrange(
            p + 51 + dec_rep(t.id as int).len() + esc(t.description).len() + bool_rep(
                t.done,
            ).len(),
            p + 55 + dec_rep(t.id as int).len() + esc(t.description).len() + bool_rep(
                t.done,
            ).len(),
        ) == seg_task_d(),
{
    let a = seg_task_a();
    let dec = dec_rep(t.id as int);
    let b = seg_task_b();
    let e = esc(t.description);
    let q = seq!['"'];
    let ca = seg_after_desc();
    let br = bool_rep(t.done);
    let dd = seg_task_d();
    let tt = ser_task(t);
    assert(tt == a + dec + b + e + q + ca + br + dd);
    lemma_parts8(a, dec, b, e, q, ca, br, dd);
    let l = tt.len();
    assert(forall|k: int| 0 <= k < l ==> #[trigger] s[p + k] == tt[k]) by {
        assert(forall|k: int| 0 <= k < l ==> #[trigger] s.subrange(p, p + l)[k] == s[p + k]);
    }
    assert(s.subrange(p, p + 14) =~= a) by {
        assert(forall|k: int| 0 <= k < 14 ==> #[trigger] tt[k] == a[k]) by {
            assert(forall|k: int| 0 <= k < 14 ==> #[trigger] tt.subrange(0, 14)[k] == a[k]);
        }
    }
    assert(s.subrange(p + 14 + dec.len(), p + 36 + dec.len()) =~= b) by {
        assert(forall|k: int| 0 <= k < 22 ==> #[trigger] tt[14 + dec.len() + k] == b[k]) by {
            assert(forall|k: int|
                0 <= k < 22 ==> #[trigger] tt.subrange(
                    14 + dec.len() as int,
                    36 + dec.len() as int,
                )[k] == b[k]);
        }
    }
    assert(s[p + 36 + dec.len() + e.len()] == '"') by {
        assert(tt.subrange(
            36 + dec.len() + e.len() as int,
            37 + dec.len() + e.len() as int,
        )[0] == q[0]);
    }
    assert(s.subrange(p + 37 + dec.len() + e.len(), p + 51 + dec.len() + e.len()) =~= ca) by {
        assert(forall|k: int|
            0 <= k < 14 ==> #[trigger] tt[37 + dec.len() + e.len() + k] == ca[k]) by {
            assert(forall|k: int|
                0 <= k < 14 ==> #[trigger] tt.subrange(
                    37 + dec.len() + e.len() as int,
                    51 + dec.len() + e.len() as int,
                )[k] == ca[k]);
        }
    }
    assert(s.subrange(
        p + 51 + dec.len() + e.len() + br.len(),
        p + 55 + dec.len() + e.len() + br.len(),
    ) =~= dd) by {
        assert(forall|k: int|
            0 <= k < 4 ==> #[trigger] tt[51 + dec.len() + e.len() + br.len() + k] == dd[k]) by {
            assert(forall|k: int|
                0 <= k < 4 ==> #[trigger] tt.subrange(
                    51 + dec.len() + e.len() + br.len() as int,
                    55 + dec.len() + e.len() + br.len() as int,
                )[k] == dd[k]);
        }
    }
    assert(s.subrange(p + 14, p + 14 + dec.len()) =~= dec) by {
        assert(forall|k: int| 0 <= k < dec.len() ==> #[trigger] tt[14 + k] == dec[k]) by {
            assert(forall|k: int|
                0 <= k < dec.len() ==> #[trigger] tt.subrange(14, 14 + dec.len() as int)[k]
                    == dec[k]);
        }
    }
    assert(s.subrange(p + 36 + dec.len(), p + 36 + dec.len() + e.len()) =~= e) by {
        assert(forall|k: int| 0 <= k < e.len() ==> #[trigger] tt[36 + dec.len() + k] == e[k]) by {
            assert(forall|k: int|
                0 <= k < e.len() ==> #[trigger] tt.subrange(
                    36 + dec.len() as int,
                    36 + dec.len() + e.len() as int,
                )[k] == e[k]);
        }
    }
    assert(s.subrange(
        p + 51 + dec.len() + e.len(),
        p + 51 + dec.len() + e.len() + br.len(),
    ) =~= br) by {
        assert(forall|k: int|
            0 <= k < br.len() ==> #[trigger] tt[51 + dec.len() + e.len() + k] == br[k]) by {
            assert(forall|k: int|
                0 <= k < br.len() ==> #[trigger] tt.subrange(
                    51 + dec.len() + e.len() as int,
                    51 + dec.len() + e.len() + br.len() as int,
                )[k] == br[k]);
        }
    }
}

/// The keys, written plainly, escape to themselves.
proof fn lemma_keys_plain()
    ensures
        esc(key_id()) == key_id(),
        esc(key_description()) == key_description(),
        esc(key_done()) == key_done(),
{
    lemma_esc_plain(key_id());
    lemma_esc_plain(key_description());
    lemma_esc_plain(key_done());
}

/// Walking the id member of a serialized record.
#[verifier::rlimit(100)]
proof fn lemma_member_id_step(s: Seq<char>, p: int, t: TaskView)
    requires
        0 <= p,
        p + ser_task(t).len() <= s.len(),
        s.subrange(p, p + ser_task(t).len()) == ser_task(t),
    ensures
        parse_members(s, p + 3, None, None, None) == parse_members(
            s,
            p + 15 + dec_rep(t.id as int).len(),
            Some(t.id),
            None,
            None,
        ),
{
    lemma_task_layout(s, p, t);
    lemma_dec_rep(t.id as int);
    let dec = dec_rep(t.id as int);
    let al = dec.len() as int;
    let tt = ser_task(t);
    lemma_skip_ws_run(s, p + 3, p + 8);
    assert(s[p + 8] == '"');
    lemma_keys_plain();
    assert(s.subrange(p + 9, p + 11) =~= key_id());
    assert(s[p + 11] == '"');
    lemma_parse_string_sub(s, p + 9, key_id());
    assert(parse_string_body(s, p + 9) == Some((key_id(), p + 12)));
    lemma_skip_ws_run(s, p + 12, p + 12);
    assert(s[p + 12] == ':');
    assert(is_digit(s[p + 14])) by {
        assert(s[p + 14] == dec[0]);
    }
    lemma_skip_ws_run(s, p + 13, p + 14);
    assert(s[p + 14 + al] == ',');
    lemma_parse_number_sub(s, p + 14, t.id);
    assert(parse_member_value(s, p + 13, key_id(), None, None, None) == Some(
        (Some(t.id), None::<Seq<char>>, None::<bool>, p + 14 + al),
    ));
    lemma_skip_ws_run(s, p + 14 + al, p + 14 + al);
    assert(s[p + 14 + al] == ',');
    assert(parse_members(s, p + 3, None, None, None) == parse_members(
        s,
        p + 15 + al,
        Some(t.id),
        None,
        None,
    ));
}

/// Walking the description member of a serialized record.
#[verifier::rlimit(100)]
proof fn lemma_member_desc_step(s: Seq<char>, p: int, t: TaskView)
    requires
        0 <= p,
        p + ser_task(t).len() <= s.len(),
        s.subrange(p, p + ser_task(t).len()) == ser_task(t),
    ensures
        parse_members(s, p + 15 + dec_rep(t.id as int).len(), Some(t.id), None, None)
            == parse_members(
            s,
            p + 38 + dec_rep(t.id as int).len() + esc(t.description).len(),
            Some(t.id),
            Some(t.description),
            None,
        ),
{
    lemma_task_layout(s, p, t);
    let al = dec_rep(t.id as int).len() as int;
    let bl = esc(t.description).len() as int;
    let b = seg_task_b();
    let ca = seg_after_desc();
    assert forall|qq: int| p + 15 + al <= qq < p + 20 + al implies is_ws(#[trigger] s[qq]) by {
        let m = qq - (p + 14 + al);
        assert(s.subrange(p + 14 + al, p + 36 + al)[m] == b[m]);
    }
    assert(s[p + 20 + al] == '"') by {
        assert(s.subrange(p + 14 + al, p + 36 + al)[6] == b[6]);
    }
    lemma_skip_ws_run(s, p + 15 + al, p + 20 + al);
    lemma_keys_plain();
    assert(s.subrange(p + 21 + al, p + 32 + al) =~= key_description()) by {
        assert(forall|k: int|
            0 <= k < 11 ==> #[trigger] s.subrange(p + 14 + al, p + 36 + al)[7 + k] == b[7 + k]);
    }
    assert(s[p + 32 + al] == '"') by {
        assert(s.subrange(p + 14 + al, p + 36 + al)[18] == b[18]);
    }
    lemma_parse_string_sub(s, p + 21 + al, key_description());
    assert(parse_string_body(s, p + 21 + al) == Some((key_description(), p + 33 + al)));
    assert(s[p + 33 + al] == ':') by {
        assert(s.subrange(p + 14 + al, p + 36 + al)[19] == b[19]);
    }
    lemma_skip_ws_run(s, p + 33 + al, p + 33 + al);
    assert(s[p + 34 + al] == ' ') by {
        assert(s.subrange(p + 14 + al, p + 36 + al)[20] == b[20]);
    }
    assert(s[p + 35 + al] == '"') by {
        assert(s.subrange(p + 14 + al, p + 36 + al)[21] == b[21]);
    }
    lemma_skip_ws_run(s, p + 34 + al, p + 35 + al);
    assert(s[p + 36 + al + bl] == '"');
    lemma_parse_string_sub(s, p + 36 + al, t.description);
    assert(parse_string_body(s, p + 36 + al) == Some((t.description, p + 37 + al + bl)));
    assert(key_description() != key_id()) by {
        assert(key_description().len() != key_id().len());
    }
    assert(parse_member_value(s, p + 34 + al, key_description(), Some(t.id), None, None) == Some(
        (Some(t.id), Some(t.description), None::<bool>, p + 37 + al + bl),
    ));
    assert(s[p + 37 + al + bl] == ',') by {
        assert(s.subrange(p + 37 + al + bl, p + 51 + al + bl)[0] == ca[0]);
    }
    lemma_skip_ws_run(s, p + 37 + al + bl, p + 37 + al + bl);
    assert(parse_members(s, p + 15 + al, Some(t.id), None, None) == parse_members(
        s,
        p + 38 + al + bl,
        Some(t.id),
        Some(t.description),
        None,
    ));
}

/// Walking the done member of a serialized record, to its closing brace.
#[verifier::rlimit(100)]
proof fn lemma_member_done_step(s: Seq<char>, p: int, t: TaskView)
    requires
        0 <= p,
        p + ser_task(t).len() <= s.len(),
        s.subrange(p, p + ser_task(t).len()) == ser_task(t),
    ensures
        parse_members(
            s,
            p + 38 + dec_rep(t.id as int).len() + esc(t.description).len(),
            Some(t.id),
            Some(t.description),
            None,
        ) == Some((t, p + ser_task(t).len())),
{
    lemma_task_layout(s, p, t);
    let al = dec_rep(t.id as int).len() as int;
    let bl = esc(t.description).len() as int;
    let cl = bool_rep(t.done).len() as int;
    let ca = seg_after_desc();
    let dd = seg_task_d();
    assert forall|qq: int| p + 38 + al + bl <= qq < p + 43 + al + bl implies is_ws(
        #[trigger] s[qq],
    ) by {
        let m = qq - (p + 37 + al + bl);
        assert(s.subrange(p + 37 + al + bl, p + 51 + al + bl)[m] == ca[m]);
    }
    assert(s[p + 43 + al + bl] == '"') by {
        assert(s.subrange(p + 37 + al + bl, p + 51 + al + bl)[6] == ca[6]);
    }
    lemma_skip_ws_run(s, p + 38 + al + bl, p + 43 + al + bl);
    lemma_keys_plain();
    assert(s.subrange(p + 44 + al + bl, p + 48 + al + bl) =~= key_done()) by {
        assert(forall|k: int|
            0 <= k < 4 ==> #[trigger] s.subrange(p + 37 + al + bl, p + 51 + al + bl)[7 + k]
                == ca[7 + k]);
    }
    assert(s[p + 48 + al + bl] == '"') by {
        assert(s.subrange(p + 37 + al + bl, p + 51 + al + bl)[11] == ca[11]);
    }
    lemma_parse_string_sub(s, p + 44 + al + bl, key_done());
    assert(parse_string_body(s, p + 44 + al + bl) == Some((key_done(), p + 49 + al + bl)));
    assert(s[p + 49 + al + bl] == ':') by {
        assert(s.subrange(p + 37 + al + bl, p + 51 + al + bl)[12] == ca[12]);
    }
    lemma_skip_ws_run(s, p + 49 + al + bl, p + 49 + al + bl);
    assert(s[p + 50 + al + bl] == ' ') by {
        assert(s.subrange(p + 37 + al + bl, p + 51 + al + bl)[13] == ca[13]);
    }
    assert(!is_ws(s[p + 51 + al + bl])) by {
        assert(s.subrange(p + 51 + al + bl, p + 51 + al + bl + cl)[0] == bool_rep(t.done)[0]);
    }
    lemma_skip_ws_run(s, p + 50 + al + bl, p + 51 + al + bl);
    lemma_parse_bool_sub(s, p + 51 + al + bl, t.done);
    assert(key_done() != key_id()) by {
        assert(key_done().len() != key_id().len());
    }
    assert(key_done() != key_description()) by {
        assert(key_done().len() != key_description().len());
    }
    assert(parse_member_value(
        s,
        p + 50 + al + bl,
        key_done(),
        Some(t.id),
        Some(t.description),
        None,
    ) == Some((Some(t.id), Some(t.description), Some(t.done), p + 51 + al + bl + cl)));
    assert forall|qq: int| p + 51 + al + bl + cl <= qq < p + 54 + al + bl + cl implies is_ws(
        #[trigger] s[qq],
    ) by {
        let m = qq - (p + 51 + al + bl + cl);
        assert(s.subrange(p + 51 + al + bl + cl, p + 55 + al + bl + cl)[m] == dd[m]);
    }
    assert(s[p + 54 + al + bl + cl] == '}') by {
        assert(s.subrange(p + 51 + al + bl + cl, p + 55 + al + bl + cl)[3] == dd[3]);
    }
    lemma_skip_ws_run(s, p + 51 + al + bl + cl, p + 54 + al + bl + cl);
    assert(TaskView { id: t.id, description: t.description, done: t.done } == t);
    assert(parse_members(s, p + 38 + al + bl, Some(t.id), Some(t.description), None) == Some(
        (t, p + 55 + al + bl + cl),
    ));
}

/// A serialized task record, preceded by whitespace, parses back to itself.
proof fn lemma_parse_task_embed(s: Seq<char>, i: int, p: int, t: TaskView)
    requires
        0 <= i <= p,
        p + ser_task(t).len() <= s.len(),
        s.subrange(p, p + ser_task(t).len()) == ser_task(t),
        forall|q: int| i <= q < p ==> is_ws(#[trigger] s[q]),
    ensures
        parse_task(s, i) == Some((t, p + ser_task(t).len())),
        skip_ws(s, i) == p + 2,
        s[p + 2] == '{',
{
    lemma_task_layout(s, p, t);
    assert(s[p] == ' ') by {
        assert(s.subrange(p, p + 14)[0] == seg_task_a()[0]);
    }
    assert(s[p + 1] == ' ') by {
        assert(s.subrange(p, p + 14)[1] == seg_task_a()[1]);
    }
    assert(s[p + 2] == '{') by {
        assert(s.subrange(p, p + 14)[2] == seg_task_a()[2]);
    }
    lemma_skip_ws_run(s, i, p + 2);
    lemma_member_id_step(s, p, t);
    lemma_member_desc_step(s, p, t);
    lemma_member_done_step(s, p, t);
}

/// Splitting the text of the records after the first into its first
/// separator, its first record, and the records that follow.
#[verifier::rlimit(100)]
proof fn lemma_split_rest(s: Seq<char>, i: int, ts: Seq<TaskView>)
    requires
        0 <= i,
        ts.len() > 0,
        i + ser_rest(ts).len() + 2 <= s.len(),
        s.subrange(i, i + ser_rest(ts).len() + 2) == ser_rest(ts) + seg_close(),
    ensures
        ser_rest(ts).len() == 2 + ser_task(ts[0]).len() + ser_rest(ts.drop_first()).len(),
        s[i] == ',',
        s[i + 1] == '\n',
        s.subrange(i + 2, i + 2 + ser_task(ts[0]).len()) == ser_task(ts[0]),
        s.subrange(
            i + 2 + ser_task(ts[0]).len(),
            i + ser_rest(ts).len() + 2,
        ) == ser_rest(ts.drop_first()) + seg_close(),
{
    let rl = ser_rest(ts).len() as int;
    let t = ts[0];
    let rest = ts.drop_first();
    let tl = ser_task(t).len() as int;
    let srl = ser_rest(rest).len() as int;
    assert(forall|q: int|
        0 <= q < rl + 2 ==> #[trigger] s[i + q] == (ser_rest(ts) + seg_close())[q]) by {
        assert(forall|q: int|
            0 <= q < rl + 2 ==> #[trigger] s.subrange(i, i + rl + 2)[q] == s[i + q]);
    }
    assert(ser_rest(ts) == seg_sep() + ser_task(t) + ser_rest(rest));
    assert(ser_rest(ts) + seg_close() =~= seg_sep() + ser_task(t) + (ser_rest(rest)
        + seg_close()));
    lemma_parts3(seg_sep(), ser_task(t), ser_rest(rest) + seg_close());
    assert(s[i] == ',');
    assert(s[i + 1] == '\n');
    assert(s.subrange(i + 2, i + 2 + tl) =~= ser_task(t)) by {
        assert(forall|k: int|
            0 <= k < tl ==> #[trigger] (ser_rest(ts) + seg_close())[2 + k] == ser_task(t)[k]) by {
            assert(forall|k: int|
                0 <= k < tl ==> #[trigger] (seg_sep() + ser_task(t) + (ser_rest(rest)
                    + seg_close())).subrange(2, 2 + tl)[k] == ser_task(t)[k]);
        }
    }
    assert(s.subrange(i + 2 + tl, i + rl + 2) =~= ser_rest(rest) + seg_close()) by {
        assert(forall|m: int|
            0 <= m < srl + 2 ==> #[trigger] (ser_rest(ts) + seg_close())[2 + tl + m] == (
            ser_rest(rest) + seg_close())[m]) by {
            assert(forall|m: int|
                0 <= m < srl + 2 ==> #[trigger] (seg_sep() + ser_task(t) + (ser_rest(rest)
                    + seg_close())).subrange(2 + tl, 2 + tl + srl + 2)[m] == (ser_rest(rest)
                    + seg_close())[m]);
        }
    }
}

/// The serialized records after the first, followed by the closing text,
/// parse back to themselves.
#[verifier::rlimit(100)]
proof fn lemma_parse_rest_embed(s: Seq<char>, i: int, ts: Seq<TaskView>)
    requires
        0 <= i,
        i + ser_rest(ts).len() + 2 <= s.len(),
        s.subrange(i, i + ser_rest(ts).len() + 2) == ser_rest(ts) + seg_close(),
    ensures
        parse_tasks_rest(s, i) == Some((ts, i + ser_rest(ts).len() + 2)),
    decreases ts.len(),
{
    let rl = ser_rest(ts).len() as int;
    if ts.len() == 0 {
        assert(forall|q: int|
            0 <= q < rl + 2 ==> #[trigger] s[i + q] == (ser_rest(ts) + seg_close())[q]) by {
            assert(forall|q: int|
                0 <= q < rl + 2 ==> #[trigger] s.subrange(i, i + rl + 2)[q] == s[i + q]);
        }
        assert(ser_rest(ts) == Seq::<char>::empty());
        assert(s[i] == '\n' && s[i + 1] == ']');
        lemma_skip_ws_run(s, i, i + 1);
        assert(parse_tasks_rest(s, i) == Some((Seq::<TaskView>::empty(), i + 2)));
        assert(ts =~= Seq::<TaskView>::empty());
    } else {
        let t = ts[0];
        let rest = ts.drop_first();
        let tl = ser_task(t).len() as int;
        let srl = ser_rest(rest).len() as int;
        lemma_split_rest(s, i, ts);
        lemma_skip_ws_run(s, i, i);
        lemma_parse_task_embed(s, i + 1, i + 2, t);
        let k = i + 2 + tl;
        assert(parse_task(s, i + 1) == Some((t, k)));
        lemma_parse_rest_embed(s, k, rest);
        assert(parse_tasks_rest(s, k) == Some((rest, k + srl + 2)));
        assert(i < k <= s.len());
        assert(seq![t] + rest =~= ts);
        assert(parse_tasks_rest(s, i) == Some((ts, i + rl + 2)));
    }
}

/// The written text of a nonempty collection parses back to it.
#[verifier::rlimit(100)]
proof fn lemma_round_trip_nonempty(ts: Seq<TaskView>)
    requires
        ts.len() > 0,
    ensures
        parse_doc(ser_doc(ts)) == Some(ts),
{
    let s = ser_doc(ts);
    {
        let t = ts[0];
        let rest = ts.drop_first();
        let tl = ser_task(t).len() as int;
        let srl = ser_rest(rest).len() as int;
        assert(s == seg_open() + ser_task(t) + ser_rest(rest) + seg_close());
        assert(s =~= seg_open() + ser_task(t) + (ser_rest(rest) + seg_close()));
        lemma_parts3(seg_open(), ser_task(t), ser_rest(rest) + seg_close());
        assert(s.len() == 2 + tl + srl + 2);
        assert(s[0] == '[') by {
            assert(s.subrange(0, 2)[0] == seg_open()[0]);
        }
        assert(s[1] == '\n') by {
            assert(s.subrange(0, 2)[1] == seg_open()[1]);
        }
        lemma_skip_ws_run(s, 0, 0);
        assert(s.subrange(2, 2 + tl) =~= ser_task(t)) by {
            assert(forall|k: int|
                0 <= k < tl ==> #[trigger] (seg_open() + ser_task(t) + (ser_rest(rest)
                    + seg_close())).subrange(2, 2 + tl)[k] == ser_task(t)[k]);
        }
        lemma_parse_task_embed(s, 1, 2, t);
        assert(skip_ws(s, 1) == 4);
        assert(s[4] != ']');
        let j = 2 + tl;
        assert(parse_task(s, 1) == Some((t, j)));
        assert(s.subrange(j, j + srl + 2) =~= ser_rest(rest) + seg_close()) by {
            assert(forall|m: int|
                0 <= m < srl + 2 ==> #[trigger] (seg_open() + ser_task(t) + (ser_rest(rest)
                    + seg_close())).subrange(2 + tl, 2 + tl + srl + 2)[m] == (ser_rest(rest)
                    + seg_close())[m]);
        }
        lemma_parse_rest_embed(s, j, rest);
        assert(parse_tasks_rest(s, j) == Some((rest, s.len() as int)));
        lemma_skip_ws_run(s, s.len() as int, s.len() as int);
        assert(skip_ws(s, s.len() as int) == s.len());
        assert(seq![t] + rest =~= ts);
        assert(parse_doc(s) == Some(ts));
    }
}

/// Loading a saved collection yields the collection back: the text written
/// for any sequence of tasks parses to exactly that sequence, field for
/// field and in the same order.
pub proof fn lemma_save_load_round_trip(ts: Seq<TaskView>)
    ensures
        parse_doc(ser_doc(ts)) == Some(ts),
{
    let s = ser_doc(ts);
    if ts.len() == 0 {
        assert(s == empty_doc());
        assert(s[0] == '[' && s[1] == ']');
        lemma_skip_ws_run(s, 0, 0);
        lemma_skip_ws_run(s, 1, 1);
        lemma_skip_ws_run(s, 2, 2);
        assert(parse_doc(s) == Some(Seq::<TaskView>::empty()));
        assert(ts =~= Seq::<TaskView>::empty());
    } else {
        lemma_round_trip_nonempty(ts);
    }
}

} // verus!
