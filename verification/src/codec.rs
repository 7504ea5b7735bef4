//! The persistence format: JSON text produced and parsed by this crate.
//!
//! The serializer emits compact JSON, escaping `\"`, `\\` and the control
//! characters; the parser accepts that text, insignificant whitespace
//! between tokens, and the standard single-character escapes together with
//! `\u` escapes of code points below 256.  The round-trip law — parsing a
//! serialized value yields the value back — is proved here.

use vstd::prelude::*;

use crate::errors::DbError;
use crate::value::{JsonValue, Jv};

verus! {

/// Whether `c` is a decimal digit.
pub open spec fn is_digit(c: char) -> bool {
    48 <= c as int <= 57
}

/// The numeric value of a digit.
pub open spec fn digit_val(c: char) -> nat {
    ((c as int) - ('0' as int)) as nat
}

/// The digit with value `d`.
pub open spec fn digit_char(d: nat) -> char {
    ((d + ('0' as nat)) as u8) as char
}

/// The decimal digits of `n`, most significant first.
pub open spec fn ser_num(n: nat) -> Seq<char>
    decreases n,
{
    if n < 10 {
        seq![digit_char(n)]
    } else {
        ser_num(n / 10).push(digit_char(n % 10))
    }
}

/// Whether `c` is insignificant whitespace between tokens.
pub open spec fn is_ws(c: char) -> bool {
    c == ' ' || c == '\t' || c == '\n' || c == '\r'
}

/// The first position at or after `i` that holds no whitespace.
pub open spec fn skip_ws(s: Seq<char>, i: int) -> int
    decreases s.len() - i,
{
    if 0 <= i < s.len() && is_ws(s[i]) {
        skip_ws(s, i + 1)
    } else {
        i
    }
}

/// `skip_ws`, bounded below by its start so that parsing positions are seen
/// to advance.
pub open spec fn ws_end(s: Seq<char>, i: int) -> int {
    let j = skip_ws(s, i);
    if j >= i {
        j
    } else {
        i
    }
}

/// Skipping whitespace stays in bounds, crosses only whitespace, and stops
/// at the first character that is none.
pub proof fn lemma_ws_props(s: Seq<char>, i: int)
    requires
        0 <= i <= s.len(),
    ensures
        i <= skip_ws(s, i) <= s.len(),
        ws_end(s, i) == skip_ws(s, i),
        forall|j: int| i <= j < skip_ws(s, i) ==> is_ws(#[trigger] s[j]),
        skip_ws(s, i) < s.len() ==> !is_ws(s[skip_ws(s, i)]),
    decreases s.len() - i,
{
    if i < s.len() && is_ws(s[i]) {
        lemma_ws_props(s, i + 1);
    }
}

/// At a non-whitespace character, skipping is the identity.
pub proof fn lemma_ws_end_at(s: Seq<char>, i: int)
    requires
        0 <= i,
        i >= s.len() || !is_ws(s[i]),
    ensures
        ws_end(s, i) == i,
{
}

/// Nothing but whitespace stands between `i` and the end of the text.
pub open spec fn only_ws(s: Seq<char>, i: int) -> bool {
    forall|j: int| i <= j < s.len() ==> is_ws(#[trigger] s[j])
}

/// Whether `c` is a hexadecimal digit.
pub open spec fn is_hex(c: char) -> bool {
    is_digit(c) || (97 <= c as int <= 102) || (65 <= c as int <= 70)
}

/// The numeric value of a hexadecimal digit.
pub open spec fn hex_val(c: char) -> nat {
    if is_digit(c) {
        digit_val(c)
    } else if 97 <= c as int <= 102 {
        ((c as int) - 87) as nat
    } else if 65 <= c as int <= 70 {
        ((c as int) - 55) as nat
    } else {
        0
    }
}

/// The lowercase hexadecimal digit with value `d`.
pub open spec fn hex_char(d: nat) -> char {
    if d < 10 {
        digit_char(d)
    } else {
        ((d + 87) as u8) as char
    }
}

/// Hexadecimal digits encode and decode to themselves.
proof fn lemma_hex_char(d: nat)
    requires
        d < 16,
    ensures
        is_hex(hex_char(d)),
        hex_val(hex_char(d)) == d,
        !is_ws(hex_char(d)),
{
    if d < 10 {
        assert(hex_char(d) as int == d + 48);
    } else {
        assert(hex_char(d) as int == d + 87);
    }
}

/// The character a single-character escape stands for, if the letter is one
/// of the standard eight.
pub open spec fn esc_code(e: char) -> Option<char> {
    if e == '"' {
        Some('"')
    } else if e == '\\' {
        Some('\\')
    } else if e == '/' {
        Some('/')
    } else if e == 'n' {
        Some('\n')
    } else if e == 't' {
        Some('\t')
    } else if e == 'r' {
        Some('\r')
    } else if e == 'b' {
        Some('\u{8}')
    } else if e == 'f' {
        Some('\u{c}')
    } else {
        None
    }
}

/// How one character is written inside a string: `"` and `\` get their
/// short escapes, control characters a `\u` escape, everything else stands
/// as itself.
pub open spec fn esc_char(c: char) -> Seq<char> {
    if c == '"' || c == '\\' {
        seq!['\\', c]
    } else if 0 <= c as int <= 31 {
        seq![
            '\\',
            'u',
            '0',
            '0',
            hex_char(((c as int) / 16) as nat),
            hex_char(((c as int) % 16) as nat),
        ]
    } else {
        seq![c]
    }
}

/// String content with every character written in its escaped form.
pub open spec fn esc(s: Seq<char>) -> Seq<char>
    decreases s.len(),
{
    if s.len() == 0 {
        Seq::empty()
    } else {
        esc_char(s[0]) + esc(s.skip(1))
    }
}

/// The serialized text of a value.
pub open spec fn ser_value(v: Jv) -> Seq<char>
    decreases v,
{
    match v {
        Jv::Null => seq!['n', 'u', 'l', 'l'],
        Jv::Bool(b) => if b {
            seq!['t', 'r', 'u', 'e']
        } else {
            seq!['f', 'a', 'l', 's', 'e']
        },
        Jv::Num(n) => ser_num(n as nat),
        Jv::Str(s) => seq!['"'] + esc(s) + seq!['"'],
        Jv::Arr(a) => if a.len() == 0 {
            seq!['[', ']']
        } else {
            seq!['['] + ser_items(a)
        },
        Jv::Obj(o) => if o.len() == 0 {
            seq!['{', '}']
        } else {
            seq!['{'] + ser_fields(o)
        },
    }
}

/// The serialized elements of a non-empty array, closing bracket included.
pub open spec fn ser_items(a: Seq<Jv>) -> Seq<char>
    decreases a,
{
    if a.len() == 0 {
        seq![']']
    } else {
        ser_value(a[0]) + (if a.len() == 1 {
            seq![']']
        } else {
            seq![','] + ser_items(a.skip(1))
        })
    }
}

/// The serialized fields of a non-empty object, closing brace included.
pub open spec fn ser_fields(o: Seq<(Seq<char>, Jv)>) -> Seq<char>
    decreases o,
{
    if o.len() == 0 {
        seq!['}']
    } else {
        seq!['"'] + esc(o[0].0) + seq!['"', ':'] + ser_value(o[0].1) + (if o.len() == 1 {
            seq!['}']
        } else {
            seq![','] + ser_fields(o.skip(1))
        })
    }
}

/// Parses string content from just after an opening quote to just after the
/// closing quote.  Accepted escapes: the standard eight single-character
/// ones, and `\u` followed by four hexadecimal digits whose value is below
/// 256.
pub open spec fn sp_str(s: Seq<char>, i: int) -> Option<(Seq<char>, int)>
    decreases s.len() - i,
{
    if i < 0 || i >= s.len() {
        None
    } else if s[i] == '"' {
        Some((Seq::empty(), i + 1))
    } else if s[i] == '\\' {
        if i + 1 >= s.len() {
            None
        } else if esc_code(s[i + 1]) is Some {
            match sp_str(s, i + 2) {
                Some((rest, k)) => Some((seq![esc_code(s[i + 1])->Some_0] + rest, k)),
                None => None,
            }
        } else if s[i + 1] == 'u' {
            if i + 6 <= s.len() && is_hex(s[i + 2]) && is_hex(s[i + 3]) && is_hex(s[i + 4])
                && is_hex(s[i + 5]) {
                let v = hex_val(s[i + 2]) * 4096 + hex_val(s[i + 3]) * 256 + hex_val(s[i + 4]) * 16
                    + hex_val(s[i + 5]);
                if v <= 255 {
                    match sp_str(s, i + 6) {
                        Some((rest, k)) => Some((seq![(v as u8) as char] + rest, k)),
                        None => None,
                    }
                } else {
                    None
                }
            } else {
                None
            }
        } else {
            None
        }
    } else {
        match sp_str(s, i + 1) {
            Some((rest, k)) => Some((seq![s[i]] + rest, k)),
            None => None,
        }
    }
}

/// The end of the digit run starting at `i`.
pub open spec fn digit_run(s: Seq<char>, i: int) -> int
    decreases s.len() - i,
{
    if 0 <= i < s.len() && is_digit(s[i]) {
        digit_run(s, i + 1)
    } else {
        i
    }
}

/// The value of a digit sequence, most significant first.
pub open spec fn digits_val(ds: Seq<char>) -> nat
    decreases ds.len(),
{
    if ds.len() == 0 {
        0
    } else {
        digits_val(ds.drop_last()) * 10 + digit_val(ds.last())
    }
}

/// Whether a digit sequence's every prefix stays within `u64`, mirroring the
/// incremental overflow check of the parser.
pub open spec fn digits_fit(ds: Seq<char>) -> bool
    decreases ds.len(),
{
    if ds.len() == 0 {
        true
    } else {
        digits_fit(ds.drop_last()) && digits_val(ds.drop_last()) <= (u64::MAX - digit_val(
            ds.last(),
        )) / 10
    }
}

/// Parses a number: the maximal digit run, rejected when empty or too large
/// for `u64`.
pub open spec fn sp_num(s: Seq<char>, i: int) -> Option<(u64, int)> {
    let j = digit_run(s, i);
    if j == i {
        None
    } else {
        let ds = s.subrange(i, j);
        if digits_fit(ds) {
            Some((digits_val(ds) as u64, j))
        } else {
            None
        }
    }
}

/// Parses one value, skipping leading whitespace.
pub open spec fn sp_value(s: Seq<char>, i: int) -> Option<(Jv, int)>
    decreases s.len() - i, 0int,
{
    let j = ws_end(s, i);
    if j < 0 || j >= s.len() {
        None
    } else if s[j] == 'n' {
        if j + 4 <= s.len() && s[j + 1] == 'u' && s[j + 2] == 'l' && s[j + 3] == 'l' {
            Some((Jv::Null, j + 4))
        } else {
            None
        }
    } else if s[j] == 't' {
        if j + 4 <= s.len() && s[j + 1] == 'r' && s[j + 2] == 'u' && s[j + 3] == 'e' {
            Some((Jv::Bool(true), j + 4))
        } else {
            None
        }
    } else if s[j] == 'f' {
        if j + 5 <= s.len() && s[j + 1] == 'a' && s[j + 2] == 'l' && s[j + 3] == 's' && s[j + 4]
            == 'e' {
            Some((Jv::Bool(false), j + 5))
        } else {
            None
        }
    } else if s[j] == '"' {
        match sp_str(s, j + 1) {
            Some((x, k)) => Some((Jv::Str(x), k)),
            None => None,
        }
    } else if s[j] == '[' {
        let j2 = ws_end(s, j + 1);
        if j2 < s.len() && s[j2] == ']' {
            Some((Jv::Arr(Seq::empty()), j2 + 1))
        } else {
            match sp_items(s, j + 1) {
                Some((elems, k)) => Some((Jv::Arr(elems), k)),
                None => None,
            }
        }
    } else if s[j] == '{' {
        let j2 = ws_end(s, j + 1);
        if j2 < s.len() && s[j2] == '}' {
            Some((Jv::Obj(Seq::empty()), j2 + 1))
        } else {
            match sp_fields(s, j + 1) {
                Some((fields, k)) => Some((Jv::Obj(fields), k)),
                None => None,
            }
        }
    } else if is_digit(s[j]) {
        match sp_num(s, j) {
            Some((n, k)) => Some((Jv::Num(n), k)),
            None => None,
        }
    } else {
        None
    }
}

/// Parses the elements of a non-empty array, from after the opening bracket
/// to after the closing one, whitespace allowed around every token.
pub open spec fn sp_items(s: Seq<char>, i: int) -> Option<(Seq<Jv>, int)>
    decreases s.len() - i, 1int,
{
    match sp_value(s, i) {
        None => None,
        Some((v, k)) => if !(i < k <= s.len()) {
            None
        } else {
            let k2 = ws_end(s, k);
            if k2 < s.len() && s[k2] == ',' {
                match sp_items(s, k2 + 1) {
                    Some((rest, e)) => Some((seq![v] + rest, e)),
                    None => None,
                }
            } else if k2 < s.len() && s[k2] == ']' {
                Some((seq![v], k2 + 1))
            } else {
                None
            }
        },
    }
}

/// Parses the fields of a non-empty object, from after the opening brace to
/// after the closing one, whitespace allowed around every token.
pub open spec fn sp_fields(s: Seq<char>, i: int) -> Option<(Seq<(Seq<char>, Jv)>, int)>
    decreases s.len() - i, 1int,
{
    let j = ws_end(s, i);
    if !(0 <= j < s.len() && s[j] == '"') {
        None
    } else {
        match sp_str(s, j + 1) {
            None => None,
            Some((key, k)) => if k < j {
                None
            } else {
                let k2 = ws_end(s, k);
                if k2 < s.len() && s[k2] == ':' {
                    match sp_value(s, k2 + 1) {
                        None => None,
                        Some((v, e)) => if !(j < e <= s.len()) {
                            None
                        } else {
                            let e2 = ws_end(s, e);
                            if e2 < s.len() && s[e2] == ',' {
                                match sp_fields(s, e2 + 1) {
                                    Some((rest, z)) => Some((seq![(key, v)] + rest, z)),
                                    None => None,
                                }
                            } else if e2 < s.len() && s[e2] == '}' {
                                Some((seq![(key, v)], e2 + 1))
                            } else {
                                None
                            }
                        },
                    }
                } else {
                    None
                }
            },
        }
    }
}

/// No digit begins at `j`: the boundary a parsed number needs.
pub open spec fn non_digit_at(s: Seq<char>, j: int) -> bool {
    j >= s.len() || !is_digit(s[j])
}

/// The digits of `n`: non-empty, all digits, valued `n`, within `u64`.
pub proof fn lemma_ser_num(n: u64)
    ensures
        ser_num(n as nat).len() >= 1,
        forall|k: int| 0 <= k < ser_num(n as nat).len() ==> is_digit(#[trigger] ser_num(n as nat)[k]),
        digits_val(ser_num(n as nat)) == n,
        digits_fit(ser_num(n as nat)),
    decreases n,
{
    let ds = ser_num(n as nat);
    if n < 10 {
        assert(digit_char(n as nat) as int == n + '0' as int);
        assert(is_digit(ds[0]));
        assert(ds.last() == digit_char(n as nat));
        assert(ds.drop_last() =~= Seq::<char>::empty());
        assert(digits_val(Seq::<char>::empty()) == 0);
        assert(digits_fit(Seq::<char>::empty()));
        assert(digits_val(ds) == digit_val(digit_char(n as nat)));
        assert(digit_val(digit_char(n as nat)) == n);
    } else {
        lemma_ser_num(n / 10);
        let prior = ser_num((n / 10) as nat);
        let d = (n % 10) as nat;
        assert(digit_char(d) as int == d + '0' as int);
        assert(digit_val(digit_char(d)) == d);
        assert(is_digit(digit_char(d)));
        assert(ds == prior.push(digit_char(d)));
        assert(ds.drop_last() =~= prior);
        assert(ds.last() == digit_char(d));
        assert(forall|k: int| 0 <= k < prior.len() ==> ds[k] == prior[k]);
        assert(digits_val(ds) == digits_val(prior) * 10 + d);
        assert(n as nat == (n / 10) as nat * 10 + d);
        assert(digits_val(prior) <= (u64::MAX - d) / 10) by {
            assert(digits_val(prior) == n / 10);
            assert(n / 10 <= (u64::MAX - (n % 10)) / 10) by (nonlinear_arith)
                requires n >= 10;
        }
    }
}

/// A digit run starts at its start, stays in bounds, holds digits only, and
/// ends at a non-digit.
proof fn lemma_digit_run_props(s: Seq<char>, i: int)
    requires
        0 <= i <= s.len(),
    ensures
        i <= digit_run(s, i) <= s.len(),
        forall|k: int| i <= k < digit_run(s, i) ==> is_digit(#[trigger] s[k]),
        non_digit_at(s, digit_run(s, i)),
    decreases s.len() - i,
{
    if i < s.len() && is_digit(s[i]) {
        lemma_digit_run_props(s, i + 1);
    }
}

/// A run of digits followed by a non-digit ends exactly at the non-digit.
proof fn lemma_digit_run(s: Seq<char>, i: int, j: int)
    requires
        0 <= i <= j <= s.len(),
        forall|k: int| i <= k < j ==> is_digit(#[trigger] s[k]),
        non_digit_at(s, j),
    ensures
        digit_run(s, i) == j,
    decreases j - i,
{
    if i < j {
        lemma_digit_run(s, i + 1, j);
    }
}

/// A serialized number parses back to itself.
proof fn lemma_sp_num_ser(s: Seq<char>, i: int, n: u64)
    requires
        0 <= i,
        i + ser_num(n as nat).len() <= s.len(),
        s.subrange(i, i + ser_num(n as nat).len() as int) == ser_num(n as nat),
        non_digit_at(s, i + ser_num(n as nat).len() as int),
    ensures
        sp_num(s, i) == Some((n, i + ser_num(n as nat).len() as int)),
{
    let ds = ser_num(n as nat);
    let j = i + ds.len() as int;
    lemma_ser_num(n);
    assert forall|k: int| i <= k < j implies is_digit(#[trigger] s[k]) by {
        assert(s.subrange(i, j)[k - i] == s[k]);
        assert(ds[k - i] == s[k]);
    }
    lemma_digit_run(s, i, j);
    assert(j != i);
    assert(s.subrange(i, j) == ds);
}

/// When a stretch of `s` equals `t`, the characters correspond position by
/// position.
proof fn lemma_stretch_index(s: Seq<char>, i: int, t: Seq<char>, k: int)
    requires
        0 <= i,
        i + t.len() <= s.len(),
        s.subrange(i, i + t.len() as int) == t,
        0 <= k < t.len(),
    ensures
        s[i + k] == t[k],
{
    assert(s.subrange(i, i + t.len() as int)[k] == s[i + k]);
}

/// Escaped string content followed by a closing quote parses back to the
/// content.
proof fn lemma_sp_str_esc(s: Seq<char>, i: int, x: Seq<char>)
    requires
        0 <= i,
        i + esc(x).len() + 1 <= s.len(),
        s.subrange(i, i + esc(x).len() as int) == esc(x),
        s[i + esc(x).len() as int] == '"',
    ensures
        sp_str(s, i) == Some((x, i + esc(x).len() + 1)),
    decreases x.len(),
{
    let e = esc(x);
    assert forall|k: int| 0 <= k < e.len() implies s[i + k] == e[k] by {
        assert(s.subrange(i, i + e.len() as int)[k] == s[i + k]);
    }
    if x.len() == 0 {
        assert(s[i] == '"');
        assert(x =~= Seq::<char>::empty());
    } else {
        let c = x[0];
        let ec = esc_char(c);
        let tail = x.skip(1);
        let et = esc(tail);
        assert(e == ec + et);
        let off = ec.len() as int;
        assert(forall|k: int| 0 <= k < off ==> e[k] == ec[k]);
        assert(s.subrange(i + off, i + off + et.len() as int) =~= et) by {
            assert forall|k: int| 0 <= k < et.len() implies s.subrange(
                i + off,
                i + off + et.len() as int,
            )[k] == et[k] by {
                assert(s[i + off + k] == e[off + k]);
                assert(e[off + k] == et[k]);
            }
        }
        assert(s[i + off + et.len() as int] == '"') by {
            assert(i + off + et.len() == i + e.len());
        }
        if c == '"' || c == '\\' {
            lemma_stretch_index(s, i, e, 0);
            lemma_stretch_index(s, i, e, 1);
            assert(ec[0] == '\\');
            assert(ec[1] == c);
            assert(s[i] == '\\');
            assert(s[i + 1] == c);
            assert(esc_code(c) == Some(c));
            lemma_sp_str_esc(s, i + 2, tail);
            assert(seq![c] + tail =~= x);
        } else if 0 <= c as int <= 31 {
            let ci = c as int;
            vstd::arithmetic::div_mod::lemma_fundamental_div_mod(ci, 16);
            let hi = (ci / 16) as nat;
            let lo = (ci % 16) as nat;
            assert(hi <= 1) by {
                vstd::arithmetic::div_mod::lemma_div_is_ordered(ci, 31, 16);
            }
            assert(lo < 16);
            lemma_hex_char(hi);
            lemma_hex_char(lo);
            lemma_stretch_index(s, i, e, 0);
            lemma_stretch_index(s, i, e, 1);
            lemma_stretch_index(s, i, e, 2);
            lemma_stretch_index(s, i, e, 3);
            lemma_stretch_index(s, i, e, 4);
            lemma_stretch_index(s, i, e, 5);
            assert(ec[0] == '\\' && ec[1] == 'u' && ec[2] == '0' && ec[3] == '0');
            assert(ec[4] == hex_char(hi) && ec[5] == hex_char(lo));
            assert(s[i] == '\\' && s[i + 1] == 'u');
            assert(s[i + 2] == '0' && s[i + 3] == '0');
            assert(s[i + 4] == hex_char(hi) && s[i + 5] == hex_char(lo));
            assert(esc_code('u') is None);
            assert(is_hex('0') && hex_val('0') == 0) by {
                assert(('0' as int) == 48);
            }
            let v = hex_val(s[i + 2]) * 4096 + hex_val(s[i + 3]) * 256 + hex_val(s[i + 4]) * 16
                + hex_val(s[i + 5]);
            assert(v == hi * 16 + lo);
            assert(hi * 16 + lo == ci);
            assert(v <= 255);
            assert((v as u8) as char == c);
            lemma_sp_str_esc(s, i + 6, tail);
            assert(seq![c] + tail =~= x);
        } else {
            lemma_stretch_index(s, i, e, 0);
            assert(ec[0] == c);
            assert(s[i] == c);
            assert(s[i] != '"' && s[i] != '\\');
            lemma_sp_str_esc(s, i + 1, tail);
            assert(seq![c] + tail =~= x);
        }
    }
}

/// Every serialized value is non-empty text.
pub proof fn lemma_ser_value_nonempty(v: Jv)
    ensures
        ser_value(v).len() >= 1,
{
    match v {
        Jv::Num(n) => {
        },
        _ => {
        },
    }
}

/// ROUND-TRIP, value level: parsing a serialized value at its position in a
/// larger text yields the value and stops right after it.
pub proof fn lemma_sp_ser_value(s: Seq<char>, i: int, v: Jv)
    requires
        0 <= i,
        i + ser_value(v).len() <= s.len(),
        s.subrange(i, i + ser_value(v).len() as int) == ser_value(v),
        non_digit_at(s, i + ser_value(v).len() as int),
    ensures
        sp_value(s, i) == Some((v, i + ser_value(v).len() as int)),
    decreases v, 0int,
{
    let sv = ser_value(v);
    let n = sv.len() as int;
    assert forall|k: int| 0 <= k < n implies s[i + k] == sv[k] by {
        assert(s.subrange(i, i + n)[k] == s[i + k]);
    }
    lemma_ser_first_not_delim(v);
    lemma_stretch_index(s, i, sv, 0);
    assert(!is_ws(s[i]));
    lemma_ws_end_at(s, i);
    match v {
        Jv::Null => {
            lemma_stretch_index(s, i, sv, 0);
            lemma_stretch_index(s, i, sv, 1);
            lemma_stretch_index(s, i, sv, 2);
            lemma_stretch_index(s, i, sv, 3);
            assert(s[i] == 'n' && s[i + 1] == 'u' && s[i + 2] == 'l' && s[i + 3] == 'l');
        },
        Jv::Bool(b) => {
            lemma_stretch_index(s, i, sv, 0);
            lemma_stretch_index(s, i, sv, 1);
            lemma_stretch_index(s, i, sv, 2);
            lemma_stretch_index(s, i, sv, 3);
            if b {
                assert(s[i] == 't' && s[i + 1] == 'r' && s[i + 2] == 'u' && s[i + 3] == 'e');
            } else {
                lemma_stretch_index(s, i, sv, 4);
                assert(s[i] == 'f' && s[i + 1] == 'a' && s[i + 2] == 'l' && s[i + 3] == 's' && s[i
                    + 4] == 'e');
            }
        },
        Jv::Num(num) => {
            lemma_ser_num(num);
            lemma_stretch_index(s, i, sv, 0);
            assert(is_digit(sv[0]));
            assert(is_digit(s[i]));
            assert(s[i] != 'n' && s[i] != 't' && s[i] != 'f' && s[i] != '"' && s[i] != '[' && s[i]
                != '{');
            lemma_sp_num_ser(s, i, num);
        },
        Jv::Str(x) => {
            lemma_stretch_index(s, i, sv, 0);
            assert(sv[0] == '"');
            assert(s[i] == '"');
            let e = esc(x);
            assert(sv == seq!['"'] + e + seq!['"']);
            assert(s.subrange(i + 1, i + 1 + e.len() as int) =~= e) by {
                assert forall|k: int| 0 <= k < e.len() implies s.subrange(
                    i + 1,
                    i + 1 + e.len() as int,
                )[k] == e[k] by {
                    assert(s[i + 1 + k] == sv[k + 1]);
                    assert(sv[k + 1] == e[k]);
                }
            }
            assert(s[i + 1 + e.len() as int] == '"') by {
                assert(sv[n - 1] == '"');
            }
            lemma_sp_str_esc(s, i + 1, x);
        },
        Jv::Arr(a) => {
            lemma_stretch_index(s, i, sv, 0);
            assert(sv[0] == '[');
            assert(s[i] == '[');
            if a.len() == 0 {
                lemma_stretch_index(s, i, sv, 1);
                assert(sv[1] == ']');
                assert(s[i + 1] == ']');
                assert(!is_ws(s[i + 1]));
                lemma_ws_end_at(s, i + 1);
                assert(Jv::Arr(a) == Jv::Arr(Seq::empty())) by {
                    assert(a =~= Seq::<Jv>::empty());
                }
            } else {
                let items = ser_items(a);
                assert(sv == seq!['['] + items);
                assert(s.subrange(i + 1, i + 1 + items.len() as int) =~= items) by {
                    assert forall|k: int| 0 <= k < items.len() implies s.subrange(
                        i + 1,
                        i + 1 + items.len() as int,
                    )[k] == items[k] by {
                        assert(s[i + 1 + k] == sv[k + 1]);
                        assert(sv[k + 1] == items[k]);
                    }
                }
                lemma_sp_ser_items(s, i + 1, a);
                lemma_ser_value_nonempty(a[0]);
                lemma_ser_first_not_delim(a[0]);
                assert(items[0] == ser_value(a[0])[0]);
                assert(s[i + 1] == items[0]);
                assert(s[i + 1] != ']' && !is_ws(s[i + 1]));
                lemma_ws_end_at(s, i + 1);
            }
        },
        Jv::Obj(o) => {
            lemma_stretch_index(s, i, sv, 0);
            assert(sv[0] == '{');
            assert(s[i] == '{');
            if o.len() == 0 {
                lemma_stretch_index(s, i, sv, 1);
                assert(sv[1] == '}');
                assert(s[i + 1] == '}');
                assert(!is_ws(s[i + 1]));
                lemma_ws_end_at(s, i + 1);
                assert(Jv::Obj(o) == Jv::Obj(Seq::empty())) by {
                    assert(o =~= Seq::<(Seq<char>, Jv)>::empty());
                }
            } else {
                let fields = ser_fields(o);
                assert(sv == seq!['{'] + fields);
                assert(s.subrange(i + 1, i + 1 + fields.len() as int) =~= fields) by {
                    assert forall|k: int| 0 <= k < fields.len() implies s.subrange(
                        i + 1,
                        i + 1 + fields.len() as int,
                    )[k] == fields[k] by {
                        assert(s[i + 1 + k] == sv[k + 1]);
                        assert(sv[k + 1] == fields[k]);
                    }
                }
                lemma_sp_ser_fields(s, i + 1, o);
                assert(fields[0] == '"');
                assert(s[i + 1] == '"');
                assert(!is_ws(s[i + 1]));
                lemma_ws_end_at(s, i + 1);
                assert(s[i + 1] != '}');
            }
        },
    }
}

/// A serialized value never begins with a delimiter or whitespace.
proof fn lemma_ser_first_not_delim(v: Jv)
    ensures
        ser_value(v)[0] != ']' && ser_value(v)[0] != '}' && ser_value(v)[0] != ',',
        !is_ws(ser_value(v)[0]),
{
    lemma_ser_value_nonempty(v);
    match v {
        Jv::Num(n) => {
            lemma_ser_num(n);
            assert(is_digit(ser_value(v)[0]));
            assert((' ' as int) == 32 && ('\t' as int) == 9 && ('\n' as int) == 10 && ('\r'
                as int) == 13);
        },
        _ => {
        },
    }
}

/// ROUND-TRIP, array elements.
proof fn lemma_sp_ser_items(s: Seq<char>, i: int, a: Seq<Jv>)
    requires
        a.len() >= 1,
        0 <= i,
        i + ser_items(a).len() <= s.len(),
        s.subrange(i, i + ser_items(a).len() as int) == ser_items(a),
    ensures
        sp_items(s, i) == Some((a, i + ser_items(a).len() as int)),
    decreases a, 1int,
{
    let items = ser_items(a);
    let n = items.len() as int;
    assert forall|k: int| 0 <= k < n implies s[i + k] == items[k] by {
        assert(s.subrange(i, i + n)[k] == s[i + k]);
    }
    let head = ser_value(a[0]);
    let hl = head.len() as int;
    lemma_ser_value_nonempty(a[0]);
    assert(s.subrange(i, i + hl) =~= head) by {
        assert forall|k: int| 0 <= k < hl implies s.subrange(i, i + hl)[k] == head[k] by {
            assert(s[i + k] == items[k]);
            assert(items[k] == head[k]);
        }
    }
    if a.len() == 1 {
        assert(items == head + seq![']']);
        lemma_stretch_index(s, i, items, hl);
        assert(items[hl] == ']');
        assert(s[i + hl] == ']');
        assert(!is_ws(s[i + hl]));
        lemma_ws_end_at(s, i + hl);
        assert(non_digit_at(s, i + hl));
        lemma_sp_ser_value(s, i, a[0]);
        assert(seq![a[0]] =~= a);
    } else {
        let rest = ser_items(a.skip(1));
        assert(items == head + (seq![','] + rest));
        lemma_stretch_index(s, i, items, hl);
        assert(items[hl] == ',');
        assert(s[i + hl] == ',');
        assert(!is_ws(s[i + hl]));
        lemma_ws_end_at(s, i + hl);
        assert(non_digit_at(s, i + hl));
        lemma_sp_ser_value(s, i, a[0]);
        assert(s.subrange(i + hl + 1, i + hl + 1 + rest.len() as int) =~= rest) by {
            assert forall|k: int| 0 <= k < rest.len() implies s.subrange(
                i + hl + 1,
                i + hl + 1 + rest.len() as int,
            )[k] == rest[k] by {
                assert(s[i + hl + 1 + k] == items[hl + 1 + k]);
                assert(items[hl + 1 + k] == rest[k]);
            }
        }
        assert(a.skip(1).len() >= 1);
        lemma_sp_ser_items(s, i + hl + 1, a.skip(1));
        assert(seq![a[0]] + a.skip(1) =~= a);
    }
}

/// ROUND-TRIP, object fields.
proof fn lemma_sp_ser_fields(s: Seq<char>, i: int, o: Seq<(Seq<char>, Jv)>)
    requires
        o.len() >= 1,
        0 <= i,
        i + ser_fields(o).len() <= s.len(),
        s.subrange(i, i + ser_fields(o).len() as int) == ser_fields(o),
    ensures
        sp_fields(s, i) == Some((o, i + ser_fields(o).len() as int)),
    decreases o, 1int,
{
    let fields = ser_fields(o);
    let n = fields.len() as int;
    assert forall|k: int| 0 <= k < n implies s[i + k] == fields[k] by {
        assert(s.subrange(i, i + n)[k] == s[i + k]);
    }
    let key = o[0].0;
    let e = esc(key);
    let el = e.len() as int;
    let val = ser_value(o[0].1);
    let vl = val.len() as int;
    lemma_ser_value_nonempty(o[0].1);
    // layout: '"' e '"' ':' val  (then ',' more or '}')
    assert(fields == seq!['"'] + e + seq!['"', ':'] + val + (if o.len() == 1 {
        seq!['}']
    } else {
        seq![','] + ser_fields(o.skip(1))
    }));
    lemma_stretch_index(s, i, fields, 0);
    assert(fields[0] == '"');
    assert(s[i] == '"');
    assert(!is_ws(s[i]));
    lemma_ws_end_at(s, i);
    assert(s.subrange(i + 1, i + 1 + el) =~= e) by {
        assert forall|k: int| 0 <= k < el implies s.subrange(i + 1, i + 1 + el)[k] == e[k] by {
            assert(s[i + 1 + k] == fields[1 + k]);
            assert(fields[1 + k] == e[k]);
        }
    }
    assert(s[i + 1 + el] == '"') by {
        lemma_stretch_index(s, i, fields, 1 + el);
        assert(fields[1 + el] == '"');
    }
    lemma_sp_str_esc(s, i + 1, key);
    let k0 = i + 1 + el + 1;
    assert(s[k0] == ':') by {
        lemma_stretch_index(s, i, fields, el + 2);
        assert(fields[el + 2] == ':');
    }
    assert(!is_ws(s[k0]));
    lemma_ws_end_at(s, k0);
    assert(s.subrange(k0 + 1, k0 + 1 + vl) =~= val) by {
        assert forall|k: int| 0 <= k < vl implies s.subrange(k0 + 1, k0 + 1 + vl)[k] == val[k] by {
            assert(s[k0 + 1 + k] == fields[el + 3 + k]);
            assert(fields[el + 3 + k] == val[k]);
        }
    }
    let after = k0 + 1 + vl;
    if o.len() == 1 {
        assert(s[after] == '}') by {
            lemma_stretch_index(s, i, fields, el + 3 + vl);
            assert(fields[el + 3 + vl] == '}');
        }
        assert(!is_ws(s[after]));
        lemma_ws_end_at(s, after);
        assert(non_digit_at(s, after));
        lemma_sp_ser_value(s, k0 + 1, o[0].1);
        assert(seq![(key, o[0].1)] =~= o) by {
            assert((key, o[0].1) == o[0]);
        }
    } else {
        let rest = ser_fields(o.skip(1));
        assert(s[after] == ',') by {
            lemma_stretch_index(s, i, fields, el + 3 + vl);
            assert(fields[el + 3 + vl] == ',');
        }
        assert(!is_ws(s[after]));
        lemma_ws_end_at(s, after);
        assert(non_digit_at(s, after));
        lemma_sp_ser_value(s, k0 + 1, o[0].1);
        assert(s.subrange(after + 1, after + 1 + rest.len() as int) =~= rest) by {
            assert forall|k: int| 0 <= k < rest.len() implies s.subrange(
                after + 1,
                after + 1 + rest.len() as int,
            )[k] == rest[k] by {
                assert(s[after + 1 + k] == fields[el + 4 + vl + k]);
                assert(fields[el + 4 + vl + k] == rest[k]);
            }
        }
        lemma_sp_ser_fields(s, after + 1, o.skip(1));
        assert(seq![(key, o[0].1)] + o.skip(1) =~= o) by {
            assert((key, o[0].1) == o[0]);
        }
    }
}

/// ROUND-TRIP, whole text: a serialized value, parsed from the start of its
/// own text, yields the value and consumes everything.
pub proof fn lemma_round_trip_value(v: Jv)
    ensures
        sp_value(ser_value(v), 0) == Some((v, ser_value(v).len() as int)),
{
    let s = ser_value(v);
    assert(s.subrange(0, s.len() as int) =~= s);
    lemma_sp_ser_value(s, 0, v);
}

/// The values denoted by parsed array elements.
pub open spec fn elems_view(v: Seq<JsonValue>) -> Seq<Jv> {
    v.map_values(|d: JsonValue| d@)
}

/// The bindings denoted by parsed object fields.
pub open spec fn fields_view(o: Seq<(Vec<char>, JsonValue)>) -> Seq<(Seq<char>, Jv)> {
    o.map_values(|p: (Vec<char>, JsonValue)| (p.0@, p.1@))
}

/// Writes one decimal digit.
fn write_digit(d: u64, out: &mut Vec<char>)
    requires
        d < 10,
    ensures
        final(out)@ == old(out)@.push(digit_char(d as nat)),
{
    let c = ((d as u8) + 48) as char;
    proof {
        assert(c == digit_char(d as nat));
    }
    out.push(c);
}

/// Writes the decimal digits of `n`.
fn write_num(n: u64, out: &mut Vec<char>)
    ensures
        final(out)@ == old(out)@ + ser_num(n as nat),
    decreases n,
{
    if n < 10 {
        write_digit(n, out);
        proof {
            assert(out@ =~= old(out)@ + ser_num(n as nat));
        }
    } else {
        write_num(n / 10, out);
        write_digit(n % 10, out);
        proof {
            assert(out@ =~= old(out)@ + ser_num(n as nat));
        }
    }
}

/// The code point of a character.
fn char_code(c: char) -> (v: u32)
    ensures
        v == c as int,
{
    c as u32
}

/// Writes one hexadecimal digit, lowercase.
fn push_hex(d: u8, out: &mut Vec<char>)
    requires
        d < 16,
    ensures
        final(out)@ == old(out)@.push(hex_char(d as nat)),
{
    if d < 10 {
        let c = (d + 48) as char;
        proof {
            assert(c == hex_char(d as nat));
        }
        out.push(c);
    } else {
        let c = (d + 87) as char;
        proof {
            assert(c == hex_char(d as nat));
        }
        out.push(c);
    }
}

/// Writes one character in its escaped form.
fn push_esc_char(c: char, out: &mut Vec<char>)
    ensures
        final(out)@ == old(out)@ + esc_char(c),
{
    let ghost base = out@;
    if c == '"' || c == '\\' {
        out.push('\\');
        out.push(c);
        proof {
            assert(out@ =~= base + esc_char(c));
        }
    } else {
        let code = char_code(c);
        if code <= 31 {
            out.push('\\');
            out.push('u');
            out.push('0');
            out.push('0');
            push_hex((code / 16) as u8, out);
            push_hex((code % 16) as u8, out);
            proof {
                assert((code / 16) as u8 as nat == ((c as int) / 16) as nat);
                assert((code % 16) as u8 as nat == ((c as int) % 16) as nat);
                assert(out@ =~= base + esc_char(c));
            }
        } else {
            out.push(c);
            proof {
                assert(out@ =~= base + esc_char(c));
            }
        }
    }
}

/// Writes string content with every character escaped as the format asks.
fn write_esc(s: &Vec<char>, out: &mut Vec<char>)
    ensures
        final(out)@ == old(out)@ + esc(s@),
{
    let mut i: usize = 0;
    proof {
        assert(s@.skip(0) =~= s@);
    }
    while i < s.len()
        invariant
            i <= s@.len(),
            old(out)@ + esc(s@) == out@ + esc(s@.skip(i as int)),
        decreases s@.len() - i,
    {
        let ghost pre = out@;
        proof {
            assert(s@.skip(i as int)[0] == s@[i as int]);
            assert(s@.skip(i as int).skip(1) =~= s@.skip(i as int + 1));
        }
        push_esc_char(s[i], out);
        proof {
            assert(pre + (esc_char(s@[i as int]) + esc(s@.skip(i as int + 1))) =~= (pre + esc_char(
                s@[i as int],
            )) + esc(s@.skip(i as int + 1)));
        }
        i += 1;
    }
    proof {
        assert(esc(s@.skip(s@.len() as int)) =~= Seq::<char>::empty());
        assert(out@ + Seq::<char>::empty() =~= out@);
    }
}

/// Writes the serialized text of a value.
pub fn write_value(v: &JsonValue, out: &mut Vec<char>)
    ensures
        final(out)@ == old(out)@ + ser_value(v@),
    decreases v,
{
    let ghost base = out@;
    match v {
        JsonValue::Null => {
            out.push('n');
            out.push('u');
            out.push('l');
            out.push('l');
            proof {
                assert(out@ =~= base + ser_value(v@));
            }
        },
        JsonValue::Bool(b) => {
            if *b {
                out.push('t');
                out.push('r');
                out.push('u');
                out.push('e');
            } else {
                out.push('f');
                out.push('a');
                out.push('l');
                out.push('s');
                out.push('e');
            }
            proof {
                assert(out@ =~= base + ser_value(v@));
            }
        },
        JsonValue::Num(n) => {
            write_num(*n, out);
        },
        JsonValue::Str(s) => {
            out.push('"');
            write_esc(s, out);
            out.push('"');
            proof {
                assert(out@ =~= base + (seq!['"'] + esc(s@) + seq!['"']));
            }
        },
        JsonValue::Arr(a) => {
            out.push('[');
            if a.len() == 0 {
                out.push(']');
                proof {
                    assert(v@->Arr_0 =~= Seq::<Jv>::empty());
                    assert(out@ =~= base + ser_value(v@));
                }
            } else {
                proof {
                    assert(elems_view(a@) =~= v@->Arr_0);
                }
                write_items(a, out);
                proof {
                    assert(out@ =~= base + ser_value(v@));
                }
            }
        },
        JsonValue::Obj(o) => {
            out.push('{');
            if o.len() == 0 {
                out.push('}');
                proof {
                    assert(v@->Obj_0 =~= Seq::<(Seq<char>, Jv)>::empty());
                    assert(out@ =~= base + ser_value(v@));
                }
            } else {
                proof {
                    assert(fields_view(o@) =~= v@->Obj_0);
                }
                write_fields(o, out);
                proof {
                    assert(out@ =~= base + ser_value(v@));
                }
            }
        },
    }
}

/// Writes the elements of a non-empty array, closing bracket included.
fn write_items(a: &Vec<JsonValue>, out: &mut Vec<char>)
    requires
        a@.len() >= 1,
    ensures
        final(out)@ == old(out)@ + ser_items(elems_view(a@)),
    decreases a,
{
    let ghost av = elems_view(a@);
    let ghost base = out@;
    proof {
        assert(av.len() == a@.len());
        assert(forall|k: int| 0 <= k < a@.len() ==> av[k] == a@[k]@);
        assert(av.skip(0) =~= av);
    }
    let mut i: usize = 0;
    while i < a.len()
        invariant
            base == old(out)@,
            av == elems_view(a@),
            av.len() == a@.len(),
            forall|k: int| 0 <= k < a@.len() ==> av[k] == a@[k]@,
            i < a@.len(),
            base + ser_items(av) == out@ + ser_items(av.skip(i as int)),
        decreases a@.len() - i,
    {
        let ghost pre = out@;
        proof {
            assert(av.skip(i as int)[0] == av[i as int]);
            assert(av.skip(i as int).skip(1) =~= av.skip(i as int + 1));
        }
        write_value(&a[i], out);
        if i + 1 < a.len() {
            out.push(',');
            proof {
                assert(out@ =~= pre + ser_value(av[i as int]) + seq![',']);
                assert(av.skip(i as int).len() > 1);
                assert(ser_items(av.skip(i as int)) == ser_value(av[i as int]) + (seq![',']
                    + ser_items(av.skip(i as int + 1))));
                assert(pre + (ser_value(av[i as int]) + (seq![','] + ser_items(
                    av.skip(i as int + 1),
                ))) =~= (pre + ser_value(av[i as int]) + seq![',']) + ser_items(
                    av.skip(i as int + 1),
                ));
            }
            i += 1;
        } else {
            out.push(']');
            proof {
                assert(av.skip(i as int).len() == 1);
                assert(ser_items(av.skip(i as int)) == ser_value(av[i as int]) + seq![']']);
                assert(out@ =~= pre + ser_value(av[i as int]) + seq![']']);
                assert(pre + (ser_value(av[i as int]) + seq![']']) =~= (pre + ser_value(
                    av[i as int],
                ) + seq![']']));
                assert(out@ =~= base + ser_items(av));
            }
            return ;
        }
    }
}

/// Writes the fields of a non-empty object, closing brace included.
fn write_fields(o: &Vec<(Vec<char>, JsonValue)>, out: &mut Vec<char>)
    requires
        o@.len() >= 1,
    ensures
        final(out)@ == old(out)@ + ser_fields(fields_view(o@)),
    decreases o,
{
    let ghost ov = fields_view(o@);
    let ghost base = out@;
    proof {
        assert(ov.len() == o@.len());
        assert(forall|k: int|
            0 <= k < o@.len() ==> ov[k] == (o@[k].0@, o@[k].1@));
        assert(ov.skip(0) =~= ov);
    }
    let mut i: usize = 0;
    while i < o.len()
        invariant
            base == old(out)@,
            ov == fields_view(o@),
            ov.len() == o@.len(),
            forall|k: int| 0 <= k < o@.len() ==> ov[k] == (o@[k].0@, o@[k].1@),
            i < o@.len(),
            base + ser_fields(ov) == out@ + ser_fields(ov.skip(i as int)),
        decreases o@.len() - i,
    {
        let ghost pre = out@;
        proof {
            assert(ov.skip(i as int)[0] == ov[i as int]);
            assert(ov.skip(i as int).skip(1) =~= ov.skip(i as int + 1));
        }
        out.push('"');
        write_esc(&o[i].0, out);
        out.push('"');
        out.push(':');
        write_value(&o[i].1, out);
        let ghost key = ov[i as int].0;
        let ghost val = ov[i as int].1;
        let ghost head = seq!['"'] + esc(key) + seq!['"', ':'] + ser_value(val);
        proof {
            assert(out@ =~= pre + head);
        }
        if i + 1 < o.len() {
            out.push(',');
            proof {
                assert(ov.skip(i as int).len() > 1);
                assert(ser_fields(ov.skip(i as int)) == head + (seq![','] + ser_fields(
                    ov.skip(i as int + 1),
                )));
                assert(out@ =~= pre + head + seq![',']);
                assert(pre + (head + (seq![','] + ser_fields(ov.skip(i as int + 1)))) =~= (pre
                    + head + seq![',']) + ser_fields(ov.skip(i as int + 1)));
            }
            i += 1;
        } else {
            out.push('}');
            proof {
                assert(ov.skip(i as int).len() == 1);
                assert(ser_fields(ov.skip(i as int)) == head + seq!['}']);
                assert(out@ =~= pre + head + seq!['}']);
                assert(pre + (head + seq!['}']) =~= pre + head + seq!['}']);
                assert(out@ =~= base + ser_fields(ov));
            }
            return ;
        }
    }
}

/// Every prefix of a fitting digit sequence fits.
proof fn lemma_fits_prefix(ds: Seq<char>, m: int)
    requires
        0 <= m <= ds.len(),
        digits_fit(ds),
    ensures
        digits_fit(ds.take(m)),
    decreases ds.len(),
{
    if m < ds.len() {
        assert(ds.drop_last() =~= ds.take(ds.len() - 1));
        lemma_fits_prefix(ds.take(ds.len() - 1), m);
        assert(ds.take(ds.len() - 1).take(m) =~= ds.take(m));
    } else {
        assert(ds.take(m) =~= ds);
    }
}

/// Whether `c` is insignificant whitespace.
fn check_ws(c: char) -> (b: bool)
    ensures
        b == is_ws(c),
{
    c == ' ' || c == '\t' || c == '\n' || c == '\r'
}

/// The first position at or after `j` holding no whitespace.
pub(crate) fn scan_ws(s: &Vec<char>, j: usize) -> (r: usize)
    requires
        j <= s@.len(),
    ensures
        r == ws_end(s@, j as int),
        j <= r <= s@.len(),
    decreases s@.len() - j,
{
    proof {
        lemma_ws_props(s@, j as int);
    }
    if j < s.len() && check_ws(s[j]) {
        proof {
            lemma_ws_props(s@, j as int + 1);
        }
        scan_ws(s, j + 1)
    } else {
        j
    }
}

/// The character a single-character escape stands for.
fn code_of(e: char) -> (r: Option<char>)
    ensures
        r == esc_code(e),
{
    if e == '"' {
        Some('"')
    } else if e == '\\' {
        Some('\\')
    } else if e == '/' {
        Some('/')
    } else if e == 'n' {
        Some('\n')
    } else if e == 't' {
        Some('\t')
    } else if e == 'r' {
        Some('\r')
    } else if e == 'b' {
        Some('\u{8}')
    } else if e == 'f' {
        Some('\u{c}')
    } else {
        None
    }
}

/// The value of a hexadecimal digit, if `c` is one.
fn check_hex(c: char) -> (r: Option<u8>)
    ensures
        match r {
            Some(d) => is_hex(c) && d == hex_val(c) && d < 16,
            None => !is_hex(c),
        },
{
    let v = char_code(c);
    if 48 <= v && v <= 57 {
        Some((v - 48) as u8)
    } else if 97 <= v && v <= 102 {
        Some((v - 87) as u8)
    } else if 65 <= v && v <= 70 {
        Some((v - 55) as u8)
    } else {
        None
    }
}

/// Parses string content from just after an opening quote.
fn parse_str(s: &Vec<char>, i: usize) -> (r: Result<(Vec<char>, usize), DbError>)
    ensures
        match r {
            Ok(p) => sp_str(s@, i as int) == Some((p.0@, p.1 as int)) && i < p.1 <= s@.len(),
            Err(e) => e == DbError::CorruptData && sp_str(s@, i as int) is None,
        },
    decreases s@.len() - i,
{
    if i >= s.len() {
        return Err(DbError::CorruptData);
    }
    let c = s[i];
    if c == '"' {
        let empty: Vec<char> = Vec::new();
        proof {
            assert(empty@ =~= Seq::<char>::empty());
        }
        Ok((empty, i + 1))
    } else if c == '\\' {
        if i + 1 >= s.len() {
            return Err(DbError::CorruptData);
        }
        match code_of(s[i + 1]) {
            Some(decoded) => {
                match parse_str(s, i + 2) {
                    Ok((mut rest, k)) => {
                        let ghost rv = rest@;
                        rest.insert(0, decoded);
                        proof {
                            assert(rest@ =~= seq![decoded] + rv);
                        }
                        Ok((rest, k))
                    },
                    Err(e) => Err(e),
                }
            },
            None => {
                if s[i + 1] == 'u' {
                    if s.len() - i >= 6 {
                        let d0 = check_hex(s[i + 2]);
                        let d1 = check_hex(s[i + 3]);
                        let d2 = check_hex(s[i + 4]);
                        let d3 = check_hex(s[i + 5]);
                        match (d0, d1, d2, d3) {
                            (Some(h0), Some(h1), Some(h2), Some(h3)) => {
                                let v: u32 = (h0 as u32) * 4096 + (h1 as u32) * 256 + (h2 as u32)
                                    * 16 + (h3 as u32);
                                if v <= 255 {
                                    let decoded = (v as u8) as char;
                                    proof {
                                        let gv = hex_val(s@[i + 2]) * 4096 + hex_val(s@[i + 3])
                                            * 256 + hex_val(s@[i + 4]) * 16 + hex_val(s@[i + 5]);
                                        assert(gv == v);
                                        assert(decoded == ((gv as u8) as char));
                                    }
                                    match parse_str(s, i + 6) {
                                        Ok((mut rest, k)) => {
                                            let ghost rv = rest@;
                                            rest.insert(0, decoded);
                                            proof {
                                                assert(rest@ =~= seq![decoded] + rv);
                                            }
                                            Ok((rest, k))
                                        },
                                        Err(e) => Err(e),
                                    }
                                } else {
                                    Err(DbError::CorruptData)
                                }
                            },
                            _ => Err(DbError::CorruptData),
                        }
                    } else {
                        Err(DbError::CorruptData)
                    }
                } else {
                    Err(DbError::CorruptData)
                }
            },
        }
    } else {
        match parse_str(s, i + 1) {
            Ok((mut rest, k)) => {
                let ghost rv = rest@;
                rest.insert(0, c);
                proof {
                    assert(rest@ =~= seq![c] + rv);
                }
                Ok((rest, k))
            },
            Err(e) => Err(e),
        }
    }
}

/// The end of the digit run starting at `j`.
fn scan_digits(s: &Vec<char>, j: usize) -> (r: usize)
    requires
        j <= s@.len(),
    ensures
        r == digit_run(s@, j as int),
    decreases s@.len() - j,
{
    if j < s.len() && check_digit(s[j]) {
        scan_digits(s, j + 1)
    } else {
        j
    }
}

/// Decides whether `c` is a decimal digit.
fn check_digit(c: char) -> (b: bool)
    ensures
        b == is_digit(c),
{
    let cv = c as u32;
    48 <= cv && cv <= 57
}

/// Parses a number: the maximal digit run, rejected when empty or too large
/// for `u64`.
fn parse_num(s: &Vec<char>, i: usize) -> (r: Result<(u64, usize), DbError>)
    requires
        i < s@.len(),
        is_digit(s@[i as int]),
    ensures
        match r {
            Ok(p) => sp_num(s@, i as int) == Some((p.0, p.1 as int)) && i < p.1 <= s@.len(),
            Err(e) => e == DbError::CorruptData && sp_num(s@, i as int) is None,
        },
{
    let j = scan_digits(s, i);
    proof {
        lemma_digit_run_props(s@, i as int);
    }
    let ghost ds = s@.subrange(i as int, j as int);
    let mut acc: u64 = 0;
    let mut k = i;
    proof {
        assert(ds.take(0) =~= Seq::<char>::empty());
    }
    while k < j
        invariant
            i <= k <= j <= s@.len(),
            j == digit_run(s@, i as int),
            ds == s@.subrange(i as int, j as int),
            forall|m: int| i <= m < j ==> is_digit(#[trigger] s@[m]),
            digits_fit(ds.take(k - i)),
            acc == digits_val(ds.take(k - i)),
        decreases j - k,
    {
        let cv = s[k] as u32;
        proof {
            assert(is_digit(s@[k as int]));
        }
        let d = (cv - 48) as u64;
        if acc > (u64::MAX - d) / 10 {
            proof {
                let pre = ds.take(k - i);
                let cur = ds.take(k - i + 1);
                assert(cur.drop_last() =~= pre);
                assert(cur.last() == ds[k - i]);
                assert(ds[k - i] == s@[k as int]);
                assert(digit_val(cur.last()) == d);
                assert(!digits_fit(cur));
                if digits_fit(ds) {
                    lemma_fits_prefix(ds, k - i + 1);
                }
            }
            return Err(DbError::CorruptData);
        }
        let ghost pre = ds.take(k - i);
        acc = acc * 10 + d;
        k += 1;
        proof {
            let cur = ds.take(k - i);
            assert(cur.drop_last() =~= pre);
            assert(cur.last() == ds[k - 1 - i]);
            assert(ds[k - 1 - i] == s@[k - 1]);
            assert(digit_val(cur.last()) == d);
            assert(digits_fit(cur));
            assert(acc == digits_val(cur));
        }
    }
    proof {
        assert(ds.take(j - i) =~= ds);
        assert(j != i);
    }
    Ok((acc, j))
}

/// Parses one value, skipping leading whitespace.
pub fn parse_value(s: &Vec<char>, i: usize) -> (r: Result<(JsonValue, usize), DbError>)
    ensures
        match r {
            Ok(p) => sp_value(s@, i as int) == Some((p.0@, p.1 as int)) && i < p.1 <= s@.len(),
            Err(e) => e == DbError::CorruptData && sp_value(s@, i as int) is None,
        },
    decreases s@.len() - i, 0int,
{
    if i >= s.len() {
        return Err(DbError::CorruptData);
    }
    let j = scan_ws(s, i);
    if j >= s.len() {
        return Err(DbError::CorruptData);
    }
    let c = s[j];
    if c == 'n' {
        if s.len() - j >= 4 && s[j + 1] == 'u' && s[j + 2] == 'l' && s[j + 3] == 'l' {
            Ok((JsonValue::Null, j + 4))
        } else {
            Err(DbError::CorruptData)
        }
    } else if c == 't' {
        if s.len() - j >= 4 && s[j + 1] == 'r' && s[j + 2] == 'u' && s[j + 3] == 'e' {
            Ok((JsonValue::Bool(true), j + 4))
        } else {
            Err(DbError::CorruptData)
        }
    } else if c == 'f' {
        if s.len() - j >= 5 && s[j + 1] == 'a' && s[j + 2] == 'l' && s[j + 3] == 's' && s[j + 4]
            == 'e' {
            Ok((JsonValue::Bool(false), j + 5))
        } else {
            Err(DbError::CorruptData)
        }
    } else if c == '"' {
        match parse_str(s, j + 1) {
            Ok((x, k)) => Ok((JsonValue::Str(x), k)),
            Err(e) => Err(e),
        }
    } else if c == '[' {
        let j2 = scan_ws(s, j + 1);
        if j2 < s.len() && s[j2] == ']' {
            let elems: Vec<JsonValue> = Vec::new();
            let out = JsonValue::Arr(elems);
            proof {
                assert(out@->Arr_0 =~= Seq::<Jv>::empty());
            }
            Ok((out, j2 + 1))
        } else {
            match parse_items(s, j + 1) {
                Ok((elems, k)) => {
                    let ghost ev = elems_view(elems@);
                    let out = JsonValue::Arr(elems);
                    proof {
                        assert(out@->Arr_0 =~= ev);
                    }
                    Ok((out, k))
                },
                Err(e) => Err(e),
            }
        }
    } else if c == '{' {
        let j2 = scan_ws(s, j + 1);
        if j2 < s.len() && s[j2] == '}' {
            let fields: Vec<(Vec<char>, JsonValue)> = Vec::new();
            let out = JsonValue::Obj(fields);
            proof {
                assert(out@->Obj_0 =~= Seq::<(Seq<char>, Jv)>::empty());
            }
            Ok((out, j2 + 1))
        } else {
            match parse_fields(s, j + 1) {
                Ok((fields, k)) => {
                    let ghost fv = fields_view(fields@);
                    let out = JsonValue::Obj(fields);
                    proof {
                        assert(out@->Obj_0 =~= fv);
                    }
                    Ok((out, k))
                },
                Err(e) => Err(e),
            }
        }
    } else {
        if check_digit(c) {
            match parse_num(s, j) {
                Ok((n, k)) => Ok((JsonValue::Num(n), k)),
                Err(e) => Err(e),
            }
        } else {
            Err(DbError::CorruptData)
        }
    }
}

/// Parses the elements of a non-empty array, up to and past the closing
/// bracket.
fn parse_items(s: &Vec<char>, i: usize) -> (r: Result<(Vec<JsonValue>, usize), DbError>)
    ensures
        match r {
            Ok(p) => sp_items(s@, i as int) == Some((elems_view(p.0@), p.1 as int)) && i < p.1
                <= s@.len(),
            Err(e) => e == DbError::CorruptData && sp_items(s@, i as int) is None,
        },
    decreases s@.len() - i, 1int,
{
    match parse_value(s, i) {
        Err(e) => Err(e),
        Ok((v, k)) => {
            let k2 = scan_ws(s, k);
            if k2 < s.len() && s[k2] == ',' {
                match parse_items(s, k2 + 1) {
                    Ok((mut rest, e)) => {
                        let ghost rv = elems_view(rest@);
                        rest.insert(0, v);
                        proof {
                            assert(elems_view(rest@) =~= seq![v@] + rv);
                        }
                        Ok((rest, e))
                    },
                    Err(e) => Err(e),
                }
            } else if k2 < s.len() && s[k2] == ']' {
                let mut single: Vec<JsonValue> = Vec::new();
                single.push(v);
                proof {
                    assert(elems_view(single@) =~= seq![single@[0]@]);
                }
                Ok((single, k2 + 1))
            } else {
                Err(DbError::CorruptData)
            }
        },
    }
}

/// Parses the fields of a non-empty object, up to and past the closing
/// brace.
fn parse_fields(s: &Vec<char>, i: usize) -> (r: Result<
    (Vec<(Vec<char>, JsonValue)>, usize),
    DbError,
>)
    requires
        i <= s@.len(),
    ensures
        match r {
            Ok(p) => sp_fields(s@, i as int) == Some((fields_view(p.0@), p.1 as int)) && i < p.1
                <= s@.len(),
            Err(e) => e == DbError::CorruptData && sp_fields(s@, i as int) is None,
        },
    decreases s@.len() - i, 1int,
{
    let j = scan_ws(s, i);
    if !(j < s.len() && s[j] == '"') {
        return Err(DbError::CorruptData);
    }
    match parse_str(s, j + 1) {
        Err(e) => Err(e),
        Ok((key, k)) => {
            let k2 = scan_ws(s, k);
            if k2 < s.len() && s[k2] == ':' {
                match parse_value(s, k2 + 1) {
                    Err(e) => Err(e),
                    Ok((v, e)) => {
                        let e2 = scan_ws(s, e);
                        if e2 < s.len() && s[e2] == ',' {
                            match parse_fields(s, e2 + 1) {
                                Ok((mut rest, z)) => {
                                    let ghost rv = fields_view(rest@);
                                    let ghost kv = key@;
                                    let ghost vv = v@;
                                    rest.insert(0, (key, v));
                                    proof {
                                        assert(fields_view(rest@) =~= seq![(kv, vv)] + rv);
                                    }
                                    Ok((rest, z))
                                },
                                Err(e2b) => Err(e2b),
                            }
                        } else if e2 < s.len() && s[e2] == '}' {
                            let ghost kv = key@;
                            let ghost vv = v@;
                            let mut single: Vec<(Vec<char>, JsonValue)> = Vec::new();
                            single.push((key, v));
                            proof {
                                assert(fields_view(single@) =~= seq![(kv, vv)]);
                            }
                            Ok((single, e2 + 1))
                        } else {
                            Err(DbError::CorruptData)
                        }
                    },
                }
            } else {
                Err(DbError::CorruptData)
            }
        },
    }
}

} // verus!
