//! The persisted file format: a JSON document `{"tasks":[...]}` holding
//! one record `{"id":N,"title":"...","completed":B}` per task.
//!
//! `enc_store` is the canonical encoding; the parse functions accept that
//! encoding (plus the standard JSON string escapes) and reject anything
//! else. `lemma_store_round_trip` proves that decoding an encoded store
//! yields the store back.

use vstd::prelude::*;

use crate::store::TaskView;
use crate::text::dec_of;
use crate::text::digit_char;

verus! {

broadcast use vstd::utf8::char_is_scalar;

/// A digit character.
pub open spec fn is_digit(c: char) -> bool {
    48 <= (c as u32) && (c as u32) <= 57
}

/// The value of a digit character.
pub open spec fn digit_val(c: char) -> nat {
    ((c as u32) - 48) as nat
}

/// A lower- or upper-case hexadecimal digit character.
pub open spec fn is_hex(c: char) -> bool {
    is_digit(c) || (97 <= (c as u32) && (c as u32) <= 102) || (65 <= (c as u32) && (c as u32)
        <= 70)
}

/// The value of a hexadecimal digit character.
pub open spec fn hex_val(c: char) -> nat {
    if is_digit(c) {
        digit_val(c)
    } else if 97 <= (c as u32) {
        ((c as u32) - 87) as nat
    } else {
        ((c as u32) - 55) as nat
    }
}

/// The hexadecimal digit character for a value below sixteen.
pub open spec fn hex_char(d: nat) -> char {
    if d < 10 {
        digit_char(d)
    } else if d == 10 {
        'a'
    } else if d == 11 {
        'b'
    } else if d == 12 {
        'c'
    } else if d == 13 {
        'd'
    } else if d == 14 {
        'e'
    } else {
        'f'
    }
}

/// The escaped form of one character inside a JSON string: quote and
/// backslash get a backslash escape, control characters a `\u00XX`
/// escape, anything else stands as itself.
pub open spec fn esc_char(c: char) -> Seq<char> {
    if c == '"' {
        seq!['\\', '"']
    } else if c == '\\' {
        seq!['\\', '\\']
    } else if (c as u32) < 32 {
        seq!['\\', 'u', '0', '0', hex_char(((c as u32) / 16) as nat), hex_char(
            ((c as u32) % 16) as nat,
        )]
    } else {
        seq![c]
    }
}

/// The escaped form of a whole string.
pub open spec fn esc(s: Seq<char>) -> Seq<char>
    decreases s.len(),
{
    if s.len() == 0 {
        Seq::empty()
    } else {
        esc_char(s[0]) + esc(s.drop_first())
    }
}

/// The key that opens a task record.
pub open spec fn lit_id_key() -> Seq<char> {
    seq!['{', '"', 'i', 'd', '"', ':']
}

/// The key before a task's title, up to the title's opening quote.
pub open spec fn lit_title_key() -> Seq<char> {
    seq![',', '"', 't', 'i', 't', 'l', 'e', '"', ':', '"']
}

/// The key between a task's title and its flag; the title's closing
/// quote stands just before it.
pub open spec fn lit_completed_key() -> Seq<char> {
    seq![',', '"', 'c', 'o', 'm', 'p', 'l', 'e', 't', 'e', 'd', '"', ':']
}

/// The document's opening, up to the task array's opening bracket.
pub open spec fn lit_header() -> Seq<char> {
    seq!['{', '"', 't', 'a', 's', 'k', 's', '"', ':', '[']
}

/// The encoding of a boolean.
pub open spec fn enc_bool(b: bool) -> Seq<char> {
    if b {
        seq!['t', 'r', 'u', 'e']
    } else {
        seq!['f', 'a', 'l', 's', 'e']
    }
}

/// The encoding of one task record.
pub open spec fn enc_task(t: TaskView) -> Seq<char> {
    lit_id_key() + dec_of(t.id as nat) + lit_title_key() + esc(t.title) + seq!['"']
        + lit_completed_key() + enc_bool(t.completed) + seq!['}']
}

/// The comma-separated encoding of a sequence of task records.
pub open spec fn enc_tasks(ts: Seq<TaskView>) -> Seq<char>
    decreases ts.len(),
{
    if ts.len() == 0 {
        Seq::empty()
    } else if ts.len() == 1 {
        enc_task(ts[0])
    } else {
        enc_task(ts[0]) + seq![','] + enc_tasks(ts.drop_first())
    }
}

/// The encoding of a whole store.
pub open spec fn enc_store(ts: Seq<TaskView>) -> Seq<char> {
    lit_header() + enc_tasks(ts) + seq![']', '}']
}

/// Consumes decimal digits from the front of `s`, folding them onto `acc`.
pub open spec fn parse_digits(s: Seq<char>, acc: nat) -> (nat, Seq<char>)
    decreases s.len(),
{
    if s.len() > 0 && is_digit(s[0]) {
        parse_digits(s.drop_first(), acc * 10 + digit_val(s[0]))
    } else {
        (acc, s)
    }
}

/// Parses a decimal number that must fit in a `u32`.
pub open spec fn parse_u32(s: Seq<char>) -> Option<(u32, Seq<char>)> {
    if s.len() > 0 && is_digit(s[0]) {
        let (v, r) = parse_digits(s, 0);
        if v <= u32::MAX as nat {
            Some((v as u32, r))
        } else {
            None
        }
    } else {
        None
    }
}

/// The character named by a single-character escape, if any.
pub open spec fn simple_unesc(c: char) -> Option<char> {
    if c == '"' {
        Some('"')
    } else if c == '\\' {
        Some('\\')
    } else if c == '/' {
        Some('/')
    } else if c == 'b' {
        Some('\u{8}')
    } else if c == 'f' {
        Some('\u{c}')
    } else if c == 'n' {
        Some('\n')
    } else if c == 'r' {
        Some('\r')
    } else if c == 't' {
        Some('\t')
    } else {
        None
    }
}

/// Parses the body of a JSON string up to and over its closing quote,
/// appending the decoded characters to `acc`. Unescaped control
/// characters and unknown escapes are rejected; `\uXXXX` escapes are
/// accepted for the two-digit code points `\u00XX`.
pub open spec fn parse_string_body(s: Seq<char>, acc: Seq<char>) -> Option<(Seq<char>, Seq<char>)>
    decreases s.len(),
{
    if s.len() == 0 {
        None
    } else if s[0] == '"' {
        Some((acc, s.drop_first()))
    } else if s[0] == '\\' {
        if s.len() >= 2 && simple_unesc(s[1]) is Some {
            parse_string_body(s.skip(2), acc.push(simple_unesc(s[1])->0))
        } else if s.len() >= 6 && s[1] == 'u' && s[2] == '0' && s[3] == '0' && is_hex(s[4])
            && is_hex(s[5]) {
            parse_string_body(s.skip(6), acc.push(((hex_val(s[4]) * 16 + hex_val(s[5])) as u32) as char))
        } else {
            None
        }
    } else if (s[0] as u32) < 32 {
        None
    } else {
        parse_string_body(s.drop_first(), acc.push(s[0]))
    }
}

/// Does `s` begin with `p`?
pub open spec fn starts_with(s: Seq<char>, p: Seq<char>) -> bool {
    p.len() <= s.len() && s.take(p.len() as int) == p
}

/// Consumes the exact characters of `p` from the front of `s`.
pub open spec fn parse_lit(s: Seq<char>, p: Seq<char>) -> Option<Seq<char>> {
    if starts_with(s, p) {
        Some(s.skip(p.len() as int))
    } else {
        None
    }
}

/// Parses a boolean literal.
pub open spec fn parse_bool(s: Seq<char>) -> Option<(bool, Seq<char>)> {
    if starts_with(s, enc_bool(true)) {
        Some((true, s.skip(4)))
    } else if starts_with(s, enc_bool(false)) {
        Some((false, s.skip(5)))
    } else {
        None
    }
}

/// Parses one task record.
pub open spec fn parse_task(s: Seq<char>) -> Option<(TaskView, Seq<char>)> {
    match parse_lit(s, lit_id_key()) {
        None => None,
        Some(r1) => match parse_u32(r1) {
            None => None,
            Some((id, r2)) => match parse_lit(r2, lit_title_key()) {
                None => None,
                Some(r3) => match parse_string_body(r3, Seq::empty()) {
                    None => None,
                    Some((title, r4)) => match parse_lit(r4, lit_completed_key()) {
                        None => None,
                        Some(r5) => match parse_bool(r5) {
                            None => None,
                            Some((b, r6)) => match parse_lit(r6, seq!['}']) {
                                None => None,
                                Some(r7) => Some(
                                    (TaskView { id: id, title: title, completed: b }, r7),
                                ),
                            },
                        },
                    },
                },
            },
        },
    }
}

/// Parses a non-empty comma-separated task array up to and over its
/// closing bracket, appending the records to `acc`.
pub open spec fn parse_task_list(s: Seq<char>, acc: Seq<TaskView>) -> Option<
    (Seq<TaskView>, Seq<char>),
>
    decreases s.len(),
{
    match parse_task(s) {
        None => None,
        Some((t, r)) => {
            if r.len() > 0 && r[0] == ',' {
                if r.len() < s.len() {
                    parse_task_list(r.drop_first(), acc.push(t))
                } else {
                    None
                }
            } else if r.len() > 0 && r[0] == ']' {
                Some((acc.push(t), r.drop_first()))
            } else {
                None
            }
        },
    }
}

/// Parses a whole document; anything after the closing brace is rejected.
pub open spec fn parse_store(s: Seq<char>) -> Option<Seq<TaskView>> {
    match parse_lit(s, lit_header()) {
        None => None,
        Some(r) => {
            if r.len() > 0 && r[0] == ']' {
                if r.len() == 2 && r[1] == '}' {
                    Some(Seq::empty())
                } else {
                    None
                }
            } else {
                match parse_task_list(r, Seq::empty()) {
                    None => None,
                    Some((ts, r2)) => {
                        if r2.len() == 1 && r2[0] == '}' {
                            Some(ts)
                        } else {
                            None
                        }
                    },
                }
            }
        },
    }
}

} // verus!

// ---------------------------------------------------------------------------
// The encoder.
// ---------------------------------------------------------------------------

use crate::store::Task;
use crate::store::TaskList;
use crate::text::chars_of;
use crate::text::digit_char_exec;
use crate::text::push_dec;
use crate::text::string_from_chars;

verus! {

/// Escaping distributes over appending one character.
pub proof fn lemma_esc_push(s: Seq<char>, c: char)
    ensures
        esc(s.push(c)) == esc(s) + esc_char(c),
    decreases s.len(),
{
    if s.len() == 0 {
        assert(s.push(c).drop_first() =~= Seq::<char>::empty());
        assert(esc(Seq::<char>::empty()) == Seq::<char>::empty());
        assert(esc(s.push(c)) == esc_char(c) + esc(Seq::<char>::empty()));
        assert(esc(s.push(c)) =~= esc(s) + esc_char(c));
    } else {
        assert(s.push(c)[0] == s[0]);
        assert(s.push(c).drop_first() =~= s.drop_first().push(c));
        lemma_esc_push(s.drop_first(), c);
        assert(esc(s.push(c)) == esc_char(s[0]) + esc(s.drop_first().push(c)));
        assert(esc(s.push(c)) =~= esc(s) + esc_char(c));
    }
}

/// The hexadecimal digit character for `d`, which must be below sixteen.
fn hex_char_exec(d: u32) -> (c: char)
    requires
        d < 16,
    ensures
        c == hex_char(d as nat),
{
    if d < 10 {
        digit_char_exec(d)
    } else if d == 10 {
        'a'
    } else if d == 11 {
        'b'
    } else if d == 12 {
        'c'
    } else if d == 13 {
        'd'
    } else if d == 14 {
        'e'
    } else {
        'f'
    }
}

/// Appends the escaped form of one character to `out`.
fn push_esc_char(c: char, out: &mut Vec<char>)
    ensures
        final(out)@ == old(out)@ + esc_char(c),
{
    if c == '"' {
        out.push('\\');
        out.push('"');
        proof {
            assert(final(out)@ =~= old(out)@ + esc_char(c));
        }
    } else if c == '\\' {
        out.push('\\');
        out.push('\\');
        proof {
            assert(final(out)@ =~= old(out)@ + esc_char(c));
        }
    } else {
        let u = c as u32;
        if u < 32 {
            out.push('\\');
            out.push('u');
            out.push('0');
            out.push('0');
            out.push(hex_char_exec(u / 16));
            out.push(hex_char_exec(u % 16));
            proof {
                assert(final(out)@ =~= old(out)@ + esc_char(c));
            }
        } else {
            out.push(c);
            proof {
                assert(final(out)@ =~= old(out)@ + esc_char(c));
            }
        }
    }
}

/// Appends the escaped form of `title` to `out`.
fn push_esc(title: &str, out: &mut Vec<char>)
    ensures
        final(out)@ == old(out)@ + esc(title@),
{
    let cs = chars_of(title);
    let ghost base = out@;
    let n = cs.len();
    for i in iter: 0..n
        invariant
            n == cs.len(),
            cs@ == title@,
            out@ == base + esc(cs@.take(i as int)),
    {
        let c = cs[i];
        push_esc_char(c, out);
        proof {
            assert(cs@.take(i + 1) =~= cs@.take(i as int).push(c));
            lemma_esc_push(cs@.take(i as int), c);
            assert(out@ =~= base + esc(cs@.take(i + 1)));
        }
    }
    proof {
        assert(cs@.take(n as int) =~= title@);
    }
}

/// The encoding of a task, written as one left-to-right concatenation.
pub proof fn lemma_enc_task_parts(t: TaskView, base: Seq<char>)
    ensures
        base + lit_id_key() + dec_of(t.id as nat) + lit_title_key() + esc(t.title) + seq!['"']
            + lit_completed_key() + enc_bool(t.completed) + seq!['}'] == base + enc_task(t),
{
    assert(base + lit_id_key() + dec_of(t.id as nat) + lit_title_key() + esc(t.title) + seq!['"']
        + lit_completed_key() + enc_bool(t.completed) + seq!['}'] =~= base + enc_task(t));
}

/// Appends the encoding of one task record to `out`.
#[verifier::rlimit(100)]
fn push_task(t: &Task, out: &mut Vec<char>)
    ensures
        final(out)@ == old(out)@ + enc_task(t@),
{
    let ghost base = out@;
    out.push('{');
    out.push('"');
    out.push('i');
    out.push('d');
    out.push('"');
    out.push(':');
    let ghost p1 = base + lit_id_key();
    proof {
        assert(out@ =~= p1);
    }
    push_dec(t.id, out);
    let ghost p2 = p1 + dec_of(t@.id as nat);
    proof {
        assert(out@ == p2);
    }
    out.push(',');
    out.push('"');
    out.push('t');
    out.push('i');
    out.push('t');
    out.push('l');
    out.push('e');
    out.push('"');
    out.push(':');
    out.push('"');
    let ghost p3 = p2 + lit_title_key();
    proof {
        assert(out@ =~= p3);
    }
    push_esc(t.title.as_str(), out);
    let ghost p4 = p3 + esc(t@.title);
    proof {
        assert(out@ == p4);
    }
    out.push('"');
    let ghost p4q = p4 + seq!['"'];
    proof {
        assert(out@ =~= p4q);
    }
    out.push(',');
    out.push('"');
    out.push('c');
    out.push('o');
    out.push('m');
    out.push('p');
    out.push('l');
    out.push('e');
    out.push('t');
    out.push('e');
    out.push('d');
    out.push('"');
    out.push(':');
    let ghost p5 = p4q + lit_completed_key();
    proof {
        assert(out@ =~= p5);
    }
    if t.completed {
        out.push('t');
        out.push('r');
        out.push('u');
        out.push('e');
    } else {
        out.push('f');
        out.push('a');
        out.push('l');
        out.push('s');
        out.push('e');
    }
    let ghost p6 = p5 + enc_bool(t@.completed);
    proof {
        assert(out@ =~= p6);
    }
    out.push('}');
    proof {
        assert(out@ =~= p6 + seq!['}']);
        lemma_enc_task_parts(t@, base);
    }
}

/// Prefix extension of the task-array encoding, past the first record.
pub proof fn lemma_enc_tasks_take(ts: Seq<TaskView>, i: int)
    requires
        1 <= i < ts.len(),
    ensures
        enc_tasks(ts.take(i + 1)) == enc_tasks(ts.take(i)) + seq![','] + enc_task(ts[i]),
    decreases i,
{
    if i == 1 {
        let t2 = ts.take(2);
        assert(t2.drop_first() =~= seq![ts[1]]);
        assert(ts.take(1) =~= seq![ts[0]]);
        assert(t2[0] == ts[0]);
        assert(enc_tasks(seq![ts[1]]) == enc_task(ts[1]));
        assert(enc_tasks(seq![ts[0]]) == enc_task(ts[0]));
        assert(enc_tasks(ts.take(2)) == enc_task(ts[0]) + seq![','] + enc_tasks(t2.drop_first()));
        assert(enc_tasks(ts.take(2)) =~= enc_tasks(ts.take(1)) + seq![','] + enc_task(ts[1]));
    } else {
        let td = ts.drop_first();
        assert(ts.take(i + 1).drop_first() =~= td.take(i));
        assert(ts.take(i).drop_first() =~= td.take(i - 1));
        lemma_enc_tasks_take(td, i - 1);
        assert(ts.take(i + 1)[0] == ts[0]);
        assert(ts.take(i)[0] == ts[0]);
        assert(td[i - 1] == ts[i]);
        assert(enc_tasks(ts.take(i + 1)) == enc_task(ts[0]) + seq![','] + enc_tasks(td.take(i)));
        assert(enc_tasks(ts.take(i)) == enc_task(ts[0]) + seq![','] + enc_tasks(td.take(i - 1)));
        assert(enc_tasks(ts.take(i + 1)) =~= enc_tasks(ts.take(i)) + seq![','] + enc_task(ts[i]));
    }
}

impl TaskList {
    /// The canonical encoding of the store, ready to be written out.
    pub fn encode(&self) -> (r: String)
        ensures
            r@ == enc_store(self@),
    {
        let mut out: Vec<char> = Vec::new();
        out.push('{');
        out.push('"');
        out.push('t');
        out.push('a');
        out.push('s');
        out.push('k');
        out.push('s');
        out.push('"');
        out.push(':');
        out.push('[');
        proof {
            assert(out@ =~= lit_header());
            assert(self@.take(0) =~= Seq::<TaskView>::empty());
        }
        let n = self.len();
        for i in iter: 0..n
            invariant
                n == self@.len(),
                out@ == lit_header() + enc_tasks(self@.take(i as int)),
        {
            if i > 0 {
                out.push(',');
            }
            push_task(self.get(i), &mut out);
            proof {
                if i == 0 {
                    assert(self@.take(1) =~= seq![self@[0]]);
                    assert(out@ =~= lit_header() + enc_tasks(self@.take(1)));
                } else {
                    lemma_enc_tasks_take(self@, i as int);
                    assert(out@ =~= lit_header() + enc_tasks(self@.take(i + 1)));
                }
            }
        }
        out.push(']');
        out.push('}');
        proof {
            assert(self@.take(n as int) =~= self@);
            assert(out@ =~= enc_store(self@));
        }
        string_from_chars(&out)
    }
}

} // verus!



// ---------------------------------------------------------------------------
// The decode round-trip: parsing a canonical encoding yields the value back.
// ---------------------------------------------------------------------------

verus! {

/// Digit characters carry their digit's value.
pub proof fn lemma_digit_char_val(d: nat)
    requires
        d < 10,
    ensures
        is_digit(digit_char(d)),
        digit_val(digit_char(d)) == d,
{
}

/// A decimal rendering is never empty and starts with a digit.
pub proof fn lemma_dec_of_digit(n: nat)
    ensures
        dec_of(n).len() >= 1,
        is_digit(dec_of(n)[0]),
    decreases n,
{
    if n < 10 {
        lemma_digit_char_val(n);
    } else {
        lemma_dec_of_digit(n / 10);
        assert(dec_of(n)[0] == dec_of(n / 10)[0]);
    }
}

/// Ten to the number of digits of `n`.
pub open spec fn pow_len(n: nat) -> nat
    decreases n,
{
    if n < 10 {
        10
    } else {
        10 * pow_len(n / 10)
    }
}

/// Consuming the decimal rendering of `m` folds `m` onto the accumulator.
pub proof fn lemma_parse_digits_dec(m: nat, suffix: Seq<char>, acc: nat)
    ensures
        parse_digits(dec_of(m) + suffix, acc) == parse_digits(suffix, acc * pow_len(m) + m),
    decreases m,
{
    if m < 10 {
        lemma_digit_char_val(m);
        let s = dec_of(m) + suffix;
        assert(s[0] == digit_char(m));
        assert(s.drop_first() =~= suffix);
        assert(parse_digits(s, acc) == parse_digits(suffix, acc * 10 + m));
    } else {
        let d = digit_char(m % 10);
        lemma_digit_char_val(m % 10);
        assert(dec_of(m) == dec_of(m / 10).push(d));
        assert(dec_of(m) + suffix =~= dec_of(m / 10) + (seq![d] + suffix));
        lemma_parse_digits_dec(m / 10, seq![d] + suffix, acc);
        let acc1 = acc * pow_len(m / 10) + m / 10;
        let s1 = seq![d] + suffix;
        assert(s1[0] == d);
        assert(s1.drop_first() =~= suffix);
        assert(parse_digits(s1, acc1) == parse_digits(suffix, acc1 * 10 + m % 10));
        assert((acc * pow_len(m / 10) + m / 10) * 10 == acc * pow_len(m / 10) * 10 + (m / 10)
            * 10) by (nonlinear_arith);
        assert(acc * pow_len(m / 10) * 10 == acc * (10 * pow_len(m / 10))) by (nonlinear_arith);
        assert((m / 10) * 10 + m % 10 == m);
        assert(pow_len(m) == 10 * pow_len(m / 10));
        assert(acc1 * 10 + m % 10 == acc * pow_len(m) + m);
    }
}

/// Parsing the decimal rendering of `n`, followed by a non-digit, gives
/// `n` back.
pub proof fn lemma_parse_u32_dec(n: nat, suffix: Seq<char>)
    requires
        n <= u32::MAX,
        suffix.len() == 0 || !is_digit(suffix[0]),
    ensures
        parse_u32(dec_of(n) + suffix) == Some((n as u32, suffix)),
{
    let s = dec_of(n) + suffix;
    lemma_dec_of_digit(n);
    assert(s[0] == dec_of(n)[0]);
    lemma_parse_digits_dec(n, suffix, 0);
    assert(0 * pow_len(n) + n == n);
    assert(parse_digits(suffix, n) == (n, suffix));
    assert(parse_digits(s, 0) == (n, suffix));
}

/// Hexadecimal digit characters carry their value.
pub proof fn lemma_hex_char_val(d: nat)
    requires
        d < 16,
    ensures
        is_hex(hex_char(d)),
        hex_val(hex_char(d)) == d,
{
    if d < 10 {
        lemma_digit_char_val(d);
    }
}

/// Parsing the escaped form of `t`, up to and over its closing quote,
/// appends exactly `t` to the accumulator.
pub proof fn lemma_parse_string_body_esc(t: Seq<char>, suffix: Seq<char>, acc: Seq<char>)
    ensures
        parse_string_body(esc(t) + (seq!['"'] + suffix), acc) == Some((acc + t, suffix)),
    decreases t.len(),
{
    let s = esc(t) + (seq!['"'] + suffix);
    if t.len() == 0 {
        assert(s =~= seq!['"'] + suffix);
        assert(s[0] == '"');
        assert(s.drop_first() =~= suffix);
        assert(acc + t =~= acc);
    } else {
        let c = t[0];
        let rest = esc(t.drop_first()) + (seq!['"'] + suffix);
        assert(s =~= esc_char(c) + rest);
        lemma_parse_string_body_esc(t.drop_first(), suffix, acc.push(c));
        assert(acc.push(c) + t.drop_first() =~= acc + t);
        if c == '"' {
            assert(s[0] == '\\' && s[1] == '"');
            assert(simple_unesc(s[1]) == Some('"'));
            assert(s.skip(2) =~= rest);
        } else if c == '\\' {
            assert(s[0] == '\\' && s[1] == '\\');
            assert(simple_unesc(s[1]) == Some('\\'));
            assert(s.skip(2) =~= rest);
        } else if (c as u32) < 32 {
            let cv = c as u32;
            assert(s[0] == '\\' && s[1] == 'u' && s[2] == '0' && s[3] == '0');
            assert(simple_unesc('u') is None);
            assert(s[4] == hex_char(((cv / 16) as nat)) && s[5] == hex_char(((cv % 16) as nat)));
            lemma_hex_char_val((cv / 16) as nat);
            lemma_hex_char_val((cv % 16) as nat);
            assert(hex_val(s[4]) * 16 + hex_val(s[5]) == cv);
            vstd::utf8::char_u32_cast(c, c as u32);
            assert(((hex_val(s[4]) * 16 + hex_val(s[5])) as u32) as char == c);
            assert(s.skip(6) =~= rest);
        } else {
            assert(s[0] == c);
            assert(s.drop_first() =~= rest);
        }
    }
}

/// Consuming a literal prefix leaves exactly what follows it.
pub proof fn lemma_parse_lit_prefix(p: Seq<char>, rest: Seq<char>)
    ensures
        parse_lit(p + rest, p) == Some(rest),
{
    let s = p + rest;
    assert(s.take(p.len() as int) =~= p);
    assert(s.skip(p.len() as int) =~= rest);
}

/// Parsing an encoded boolean gives it back.
pub proof fn lemma_parse_bool_enc(b: bool, rest: Seq<char>)
    ensures
        parse_bool(enc_bool(b) + rest) == Some((b, rest)),
{
    let s = enc_bool(b) + rest;
    if b {
        assert(s.take(4) =~= enc_bool(true));
        assert(s.skip(4) =~= rest);
    } else {
        assert(s[0] == 'f');
        assert(s.take(4)[0] == s[0]);
        assert(!starts_with(s, enc_bool(true)));
        assert(s.take(5) =~= enc_bool(false));
        assert(s.skip(5) =~= rest);
    }
}

/// Parsing an encoded task gives it back.
#[verifier::rlimit(100)]
pub proof fn lemma_parse_task_enc(t: TaskView, suffix: Seq<char>)
    ensures
        parse_task(enc_task(t) + suffix) == Some((t, suffix)),
{
    let s = enc_task(t) + suffix;
    let r6v = seq!['}'] + suffix;
    let r5v = enc_bool(t.completed) + r6v;
    let r4v = lit_completed_key() + r5v;
    let r3v = esc(t.title) + (seq!['"'] + r4v);
    let r2v = lit_title_key() + r3v;
    let r1v = dec_of(t.id as nat) + r2v;
    assert(s =~= lit_id_key() + r1v);
    lemma_parse_lit_prefix(lit_id_key(), r1v);
    assert(parse_lit(s, lit_id_key()) == Some(r1v));
    assert(r2v[0] == ',');
    assert(!is_digit(','));
    lemma_parse_u32_dec(t.id as nat, r2v);
    assert(parse_u32(r1v) == Some((t.id, r2v)));
    lemma_parse_lit_prefix(lit_title_key(), r3v);
    assert(parse_lit(r2v, lit_title_key()) == Some(r3v));
    lemma_parse_string_body_esc(t.title, r4v, Seq::empty());
    assert(Seq::empty() + t.title =~= t.title);
    assert(parse_string_body(r3v, Seq::empty()) == Some((t.title, r4v)));
    lemma_parse_lit_prefix(lit_completed_key(), r5v);
    assert(parse_lit(r4v, lit_completed_key()) == Some(r5v));
    lemma_parse_bool_enc(t.completed, r6v);
    assert(parse_bool(r5v) == Some((t.completed, r6v)));
    lemma_parse_lit_prefix(seq!['}'], suffix);
    assert(parse_lit(r6v, seq!['}']) == Some(suffix));
    assert(TaskView { id: t.id, title: t.title, completed: t.completed } =~= t);
}

/// An encoded task is never empty.
pub proof fn lemma_enc_task_len(t: TaskView)
    ensures
        enc_task(t).len() >= 1,
{
}

/// Parsing an encoded task array, up to and over its closing bracket,
/// appends exactly those tasks to the accumulator.
pub proof fn lemma_parse_task_list_enc(ts: Seq<TaskView>, suffix: Seq<char>, acc: Seq<TaskView>)
    requires
        ts.len() >= 1,
    ensures
        parse_task_list(enc_tasks(ts) + (seq![']'] + suffix), acc) == Some((acc + ts, suffix)),
    decreases ts.len(),
{
    let s = enc_tasks(ts) + (seq![']'] + suffix);
    lemma_enc_task_len(ts[0]);
    if ts.len() == 1 {
        assert(enc_tasks(ts) == enc_task(ts[0]));
        assert(s =~= enc_task(ts[0]) + (seq![']'] + suffix));
        lemma_parse_task_enc(ts[0], seq![']'] + suffix);
        let r = seq![']'] + suffix;
        assert(parse_task(s) == Some((ts[0], r)));
        assert(r[0] == ']');
        assert(r.drop_first() =~= suffix);
        assert(acc.push(ts[0]) =~= acc + ts);
    } else {
        let td = ts.drop_first();
        let suffix2 = seq![','] + (enc_tasks(td) + (seq![']'] + suffix));
        assert(enc_tasks(ts) == enc_task(ts[0]) + seq![','] + enc_tasks(td));
        assert(s =~= enc_task(ts[0]) + suffix2);
        lemma_parse_task_enc(ts[0], suffix2);
        assert(parse_task(s) == Some((ts[0], suffix2)));
        assert(suffix2[0] == ',');
        assert(s.len() == enc_task(ts[0]).len() + suffix2.len());
        assert(suffix2.len() < s.len());
        assert(suffix2.drop_first() =~= enc_tasks(td) + (seq![']'] + suffix));
        lemma_parse_task_list_enc(td, suffix, acc.push(ts[0]));
        assert(acc.push(ts[0]) + td =~= acc + ts);
    }
}

/// The round-trip law: parsing the canonical encoding of any store
/// yields exactly that store.
pub proof fn lemma_store_round_trip(ts: Seq<TaskView>)
    ensures
        parse_store(enc_store(ts)) == Some(ts),
{
    let s = enc_store(ts);
    let r = enc_tasks(ts) + seq![']', '}'];
    assert(s =~= lit_header() + r);
    lemma_parse_lit_prefix(lit_header(), r);
    assert(parse_lit(s, lit_header()) == Some(r));
    if ts.len() == 0 {
        assert(r =~= seq![']', '}']);
        assert(r.len() == 2 && r[0] == ']' && r[1] == '}');
        assert(parse_store(s) == Some(Seq::<TaskView>::empty()));
        assert(ts =~= Seq::<TaskView>::empty());
    } else {
        assert(enc_task(ts[0])[0] == '{');
        if ts.len() == 1 {
            assert(enc_tasks(ts)[0] == enc_task(ts[0])[0]);
        } else {
            assert(enc_tasks(ts)[0] == enc_task(ts[0])[0]);
        }
        assert(r[0] == '{');
        assert(r =~= enc_tasks(ts) + (seq![']'] + seq!['}']));
        lemma_parse_task_list_enc(ts, seq!['}'], Seq::empty());
        assert(parse_task_list(r, Seq::empty()) == Some((Seq::empty() + ts, seq!['}'])));
        assert(Seq::empty() + ts =~= ts);
        let r2 = seq!['}'];
        assert(r2.len() == 1 && r2[0] == '}');
    }
}

} // verus!

// ---------------------------------------------------------------------------
// The decoder.
// ---------------------------------------------------------------------------

verus! {

/// A saved document that does not match the format.
#[derive(Debug, PartialEq, Eq)]
pub struct ParseError;

/// The result value of `parse_digits` never falls below the accumulator.
pub proof fn lemma_parse_digits_lower(s: Seq<char>, acc: nat)
    ensures
        parse_digits(s, acc).0 >= acc,
    decreases s.len(),
{
    if s.len() > 0 && is_digit(s[0]) {
        lemma_parse_digits_lower(s.drop_first(), acc * 10 + digit_val(s[0]));
    }
}

/// Consumes the literal `lit` at position `i` of `v`.
fn eat_lit(v: &Vec<char>, i: usize, lit: &Vec<char>) -> (r: Option<usize>)
    requires
        i <= v.len(),
    ensures
        match r {
            Some(j) => {
                &&& parse_lit(v@.skip(i as int), lit@) == Some(v@.skip(j as int))
                &&& i <= j <= v.len()
                &&& j - i == lit@.len()
            },
            None => parse_lit(v@.skip(i as int), lit@) is None,
        },
{
    if v.len() - i < lit.len() {
        proof {
            assert(!starts_with(v@.skip(i as int), lit@));
        }
        return None;
    }
    let n = lit.len();
    for k in iter: 0..n
        invariant
            n == lit.len(),
            i + n <= v.len(),
            forall|m: int| 0 <= m < k ==> v@[i + m] == lit@[m],
    {
        if v[i + k] != lit[k] {
            proof {
                let s = v@.skip(i as int);
                assert(s.take(lit@.len() as int)[k as int] == v@[i + k]);
                assert(!starts_with(s, lit@));
            }
            return None;
        }
    }
    proof {
        let s = v@.skip(i as int);
        assert(s.take(lit@.len() as int) =~= lit@);
        assert(s.skip(lit@.len() as int) =~= v@.skip(i + lit@.len()));
    }
    Some(i + n)
}

/// Parses a decimal `u32` at position `i` of `v`.
fn p_u32(v: &Vec<char>, i: usize) -> (r: Option<(u32, usize)>)
    requires
        i <= v.len(),
    ensures
        match r {
            Some((x, j)) => {
                &&& parse_u32(v@.skip(i as int)) == Some((x, v@.skip(j as int)))
                &&& i <= j <= v.len()
            },
            None => parse_u32(v@.skip(i as int)) is None,
        },
{
    if i >= v.len() {
        return None;
    }
    let c0 = v[i];
    let u0 = c0 as u32;
    if !(48 <= u0 && u0 <= 57) {
        proof {
            assert(v@.skip(i as int)[0] == c0);
            assert(!is_digit(v@.skip(i as int)[0]));
        }
        return None;
    }
    let mut acc: u32 = 0;
    let mut j: usize = i;
    while j < v.len() && 48 <= (v[j] as u32) && (v[j] as u32) <= 57
        invariant
            i <= j <= v.len(),
            parse_digits(v@.skip(i as int), 0) == parse_digits(v@.skip(j as int), acc as nat),
        decreases v.len() - j,
    {
        let c = v[j];
        let d = (c as u32) - 48;
        let na = (acc as u64) * 10 + (d as u64);
        let ghost jj = j as int;
        let ghost acc0 = acc as nat;
        proof {
            assert(v@.skip(jj)[0] == c);
            assert(is_digit(c));
            assert(digit_val(c) == d as nat);
            assert(v@.skip(jj).drop_first() =~= v@.skip(jj + 1));
            assert(parse_digits(v@.skip(jj), acc0) == parse_digits(
                v@.skip(jj + 1),
                acc0 * 10 + digit_val(c),
            ));
        }
        if na > 0xffff_ffffu64 {
            proof {
                lemma_parse_digits_lower(v@.skip(jj + 1), acc0 * 10 + digit_val(c));
                assert(parse_digits(v@.skip(i as int), 0).0 > u32::MAX as nat);
            }
            return None;
        }
        acc = na as u32;
        j = j + 1;
        proof {
            assert(acc as nat == acc0 * 10 + digit_val(c));
        }
    }
    proof {
        let s = v@.skip(j as int);
        if j < v.len() {
            assert(s[0] == v@[j as int]);
        }
        assert(s.len() == 0 || !is_digit(s[0]));
        assert(parse_digits(s, acc as nat) == (acc as nat, s));
        assert(parse_u32(v@.skip(i as int)) == Some((acc, s)));
    }
    Some((acc, j))
}

/// The single-character escape for `c`, if any.
fn simple_unesc_exec(c: char) -> (r: Option<char>)
    ensures
        r == simple_unesc(c),
{
    if c == '"' {
        Some('"')
    } else if c == '\\' {
        Some('\\')
    } else if c == '/' {
        Some('/')
    } else if c == 'b' {
        Some('\u{8}')
    } else if c == 'f' {
        Some('\u{c}')
    } else if c == 'n' {
        Some('\n')
    } else if c == 'r' {
        Some('\r')
    } else if c == 't' {
        Some('\t')
    } else {
        None
    }
}

/// Is `c` a hexadecimal digit?
fn is_hex_exec(c: char) -> (b: bool)
    ensures
        b == is_hex(c),
{
    let u = c as u32;
    (48 <= u && u <= 57) || (97 <= u && u <= 102) || (65 <= u && u <= 70)
}

/// The value of the hexadecimal digit `c`.
fn hex_val_exec(c: char) -> (d: u32)
    requires
        is_hex(c),
    ensures
        d as nat == hex_val(c),
        d < 16,
{
    let u = c as u32;
    if u >= 97 {
        u - 87
    } else if u >= 65 {
        u - 55
    } else {
        u - 48
    }
}

/// The character with code point `x`, which must be below 256.
fn small_char_exec(x: u32) -> (c: char)
    requires
        x < 256,
    ensures
        c == (x as char),
{
    let b = x as u8;
    proof {
        assert(x < 256 ==> (x as u8) as u32 == x) by (bit_vector);
    }
    b as char
}

/// Parses a JSON string body at position `i` of `v`, up to and over its
/// closing quote.
fn p_string_body(v: &Vec<char>, i: usize) -> (r: Option<(Vec<char>, usize)>)
    requires
        i <= v.len(),
    ensures
        match r {
            Some((cs, j)) => {
                &&& parse_string_body(v@.skip(i as int), Seq::empty()) == Some(
                    (cs@, v@.skip(j as int)),
                )
                &&& i <= j <= v.len()
            },
            None => parse_string_body(v@.skip(i as int), Seq::empty()) is None,
        },
{
    let mut cs: Vec<char> = Vec::new();
    let mut j: usize = i;
    while j < v.len()
        invariant
            i <= j <= v.len(),
            parse_string_body(v@.skip(i as int), Seq::empty()) == parse_string_body(
                v@.skip(j as int),
                cs@,
            ),
        decreases v.len() - j,
    {
        let c = v[j];
        let ghost jj = j as int;
        proof {
            assert(v@.skip(jj)[0] == c);
        }
        if c == '"' {
            proof {
                assert(v@.skip(jj).drop_first() =~= v@.skip(jj + 1));
            }
            return Some((cs, j + 1));
        }
        if c == '\\' {
            if v.len() - j < 2 {
                proof {
                    assert(v@.skip(jj).len() == 1);
                }
                return None;
            }
            let e = v[j + 1];
            proof {
                assert(v@.skip(jj)[1] == e);
            }
            match simple_unesc_exec(e) {
                Some(u) => {
                    cs.push(u);
                    j = j + 2;
                    proof {
                        assert(v@.skip(jj).skip(2) =~= v@.skip(jj + 2));
                    }
                },
                None => {
                    if e != 'u' {
                        return None;
                    }
                    if v.len() - j < 6 {
                        proof {
                            assert(v@.skip(jj).len() < 6);
                        }
                        return None;
                    }
                    proof {
                        assert(v@.skip(jj)[2] == v@[jj + 2]);
                        assert(v@.skip(jj)[3] == v@[jj + 3]);
                        assert(v@.skip(jj)[4] == v@[jj + 4]);
                        assert(v@.skip(jj)[5] == v@[jj + 5]);
                    }
                    if v[j + 2] != '0' || v[j + 3] != '0' {
                        return None;
                    }
                    if !is_hex_exec(v[j + 4]) || !is_hex_exec(v[j + 5]) {
                        return None;
                    }
                    let hv = hex_val_exec(v[j + 4]) * 16 + hex_val_exec(v[j + 5]);
                    let ch = small_char_exec(hv);
                    cs.push(ch);
                    j = j + 6;
                    proof {
                        assert(v@.skip(jj).skip(6) =~= v@.skip(jj + 6));
                    }
                },
            }
        } else {
            let u = c as u32;
            if u < 32 {
                proof {
                    assert((v@.skip(jj)[0] as u32) < 32);
                }
                return None;
            }
            cs.push(c);
            j = j + 1;
            proof {
                assert(v@.skip(jj).drop_first() =~= v@.skip(jj + 1));
            }
        }
    }
    proof {
        assert(v@.skip(j as int).len() == 0);
    }
    None
}

} // verus!


verus! {

/// Parses a boolean literal at position `i` of `v`.
fn p_bool(v: &Vec<char>, i: usize) -> (r: Option<(bool, usize)>)
    requires
        i <= v.len(),
    ensures
        match r {
            Some((b, j)) => {
                &&& parse_bool(v@.skip(i as int)) == Some((b, v@.skip(j as int)))
                &&& i <= j <= v.len()
            },
            None => parse_bool(v@.skip(i as int)) is None,
        },
{
    let mut tv: Vec<char> = Vec::new();
    tv.push('t');
    tv.push('r');
    tv.push('u');
    tv.push('e');
    proof {
        assert(tv@ =~= enc_bool(true));
    }
    match eat_lit(v, i, &tv) {
        Some(j) => {
            return Some((true, j));
        },
        None => {},
    }
    let mut fv: Vec<char> = Vec::new();
    fv.push('f');
    fv.push('a');
    fv.push('l');
    fv.push('s');
    fv.push('e');
    proof {
        assert(fv@ =~= enc_bool(false));
    }
    match eat_lit(v, i, &fv) {
        Some(j) => Some((false, j)),
        None => None,
    }
}

/// Parses one task record at position `i` of `v`.
fn p_task(v: &Vec<char>, i: usize) -> (r: Option<(Task, usize)>)
    requires
        i <= v.len(),
    ensures
        match r {
            Some((t, j)) => {
                &&& parse_task(v@.skip(i as int)) == Some((t@, v@.skip(j as int)))
                &&& i < j <= v.len()
            },
            None => parse_task(v@.skip(i as int)) is None,
        },
{
    let mut kv: Vec<char> = Vec::new();
    kv.push('{');
    kv.push('"');
    kv.push('i');
    kv.push('d');
    kv.push('"');
    kv.push(':');
    proof {
        assert(kv@ =~= lit_id_key());
    }
    let j1 = match eat_lit(v, i, &kv) {
        Some(j) => j,
        None => {
            return None;
        },
    };
    let (id, j2) = match p_u32(v, j1) {
        Some(x) => x,
        None => {
            return None;
        },
    };
    let mut tkv: Vec<char> = Vec::new();
    tkv.push(',');
    tkv.push('"');
    tkv.push('t');
    tkv.push('i');
    tkv.push('t');
    tkv.push('l');
    tkv.push('e');
    tkv.push('"');
    tkv.push(':');
    tkv.push('"');
    proof {
        assert(tkv@ =~= lit_title_key());
    }
    let j3 = match eat_lit(v, j2, &tkv) {
        Some(j) => j,
        None => {
            return None;
        },
    };
    let (title_cs, j4) = match p_string_body(v, j3) {
        Some(x) => x,
        None => {
            return None;
        },
    };
    let mut ckv: Vec<char> = Vec::new();
    ckv.push(',');
    ckv.push('"');
    ckv.push('c');
    ckv.push('o');
    ckv.push('m');
    ckv.push('p');
    ckv.push('l');
    ckv.push('e');
    ckv.push('t');
    ckv.push('e');
    ckv.push('d');
    ckv.push('"');
    ckv.push(':');
    proof {
        assert(ckv@ =~= lit_completed_key());
    }
    let j5 = match eat_lit(v, j4, &ckv) {
        Some(j) => j,
        None => {
            return None;
        },
    };
    let (b, j6) = match p_bool(v, j5) {
        Some(x) => x,
        None => {
            return None;
        },
    };
    let mut bv: Vec<char> = Vec::new();
    bv.push('}');
    proof {
        assert(bv@ =~= seq!['}']);
    }
    let j7 = match eat_lit(v, j6, &bv) {
        Some(j) => j,
        None => {
            return None;
        },
    };
    let title = string_from_chars(&title_cs);
    let t = Task { id, title, completed: b };
    proof {
        assert(t@ =~= TaskView { id: id, title: title_cs@, completed: b });
    }
    Some((t, j7))
}

impl TaskList {
    /// Parses a document in the format that `encode` writes; anything
    /// else is rejected with a `ParseError`.
    pub fn decode(s: &str) -> (r: Result<TaskList, ParseError>)
        ensures
            match r {
                Ok(tl) => parse_store(s@) == Some(tl@),
                Err(e) => parse_store(s@) is None,
            },
    {
        let v = chars_of(s);
        proof {
            assert(v@.skip(0) =~= s@);
        }
        let mut hv: Vec<char> = Vec::new();
        hv.push('{');
        hv.push('"');
        hv.push('t');
        hv.push('a');
        hv.push('s');
        hv.push('k');
        hv.push('s');
        hv.push('"');
        hv.push(':');
        hv.push('[');
        proof {
            assert(hv@ =~= lit_header());
        }
        let j0 = match eat_lit(&v, 0, &hv) {
            Some(j) => j,
            None => {
                return Err(ParseError);
            },
        };
        if j0 < v.len() && v[j0] == ']' {
            proof {
                assert(v@.skip(j0 as int)[0] == ']');
            }
            if v.len() - j0 == 2 && v[j0 + 1] == '}' {
                proof {
                    assert(v@.skip(j0 as int).len() == 2);
                    assert(v@.skip(j0 as int)[1] == '}');
                }
                return Ok(TaskList::new());
            } else {
                proof {
                    let rr = v@.skip(j0 as int);
                    if rr.len() == 2 {
                        assert(rr[1] == v@[j0 + 1]);
                    }
                }
                return Err(ParseError);
            }
        }
        let mut tasks: Vec<Task> = Vec::new();
        let mut j: usize = j0;
        proof {
            assert(tasks@.map_values(|q: Task| q@) =~= Seq::<TaskView>::empty());
            if j0 < v.len() {
                assert(v@.skip(j0 as int)[0] == v@[j0 as int]);
            }
        }
        loop
            invariant
                j0 <= j <= v.len(),
                parse_store(s@) == (match parse_task_list(
                    v@.skip(j as int),
                    tasks@.map_values(|q: Task| q@),
                ) {
                    None => None::<Seq<TaskView>>,
                    Some((ts, r2)) => {
                        if r2.len() == 1 && r2[0] == '}' {
                            Some(ts)
                        } else {
                            None
                        }
                    },
                }),
            decreases v.len() - j,
        {
            let (t, j2) = match p_task(&v, j) {
                Some(x) => x,
                None => {
                    return Err(ParseError);
                },
            };
            if j2 < v.len() && v[j2] == ',' {
                proof {
                    assert(v@.skip(j2 as int)[0] == ',');
                    assert(v@.skip(j2 as int).len() < v@.skip(j as int).len());
                    assert(v@.skip(j2 as int).drop_first() =~= v@.skip(j2 + 1));
                    assert((tasks@.push(t)).map_values(|q: Task| q@) =~= tasks@.map_values(
                        |q: Task| q@,
                    ).push(t@));
                }
                tasks.push(t);
                j = j2 + 1;
            } else if j2 < v.len() && v[j2] == ']' {
                proof {
                    assert(v@.skip(j2 as int)[0] == ']');
                    assert(v@.skip(j2 as int).drop_first() =~= v@.skip(j2 + 1));
                    assert((tasks@.push(t)).map_values(|q: Task| q@) =~= tasks@.map_values(
                        |q: Task| q@,
                    ).push(t@));
                }
                if v.len() - j2 == 2 && v[j2 + 1] == '}' {
                    proof {
                        assert(v@.skip(j2 + 1).len() == 1);
                        assert(v@.skip(j2 + 1)[0] == '}');
                    }
                    tasks.push(t);
                    let tl = TaskList::from_tasks(tasks);
                    return Ok(tl);
                } else {
                    proof {
                        let r2 = v@.skip(j2 + 1);
                        if r2.len() == 1 {
                            assert(r2[0] == v@[j2 + 1]);
                        }
                    }
                    return Err(ParseError);
                }
            } else {
                proof {
                    if j2 < v.len() {
                        assert(v@.skip(j2 as int)[0] == v@[j2 as int]);
                    }
                }
                return Err(ParseError);
            }
        }
    }

    /// Builds a store from what was read back from storage: an absent
    /// file is the empty store, present contents are decoded.
    pub fn from_saved(contents: Option<&str>) -> (r: Result<TaskList, ParseError>)
        ensures
            match contents {
                None => r is Ok && r->Ok_0@ == Seq::<TaskView>::empty(),
                Some(s) => match r {
                    Ok(tl) => parse_store(s@) == Some(tl@),
                    Err(e) => parse_store(s@) is None,
                },
            },
    {
        match contents {
            None => Ok(TaskList::new()),
            Some(s) => TaskList::decode(s),
        }
    }
}

} // verus!
