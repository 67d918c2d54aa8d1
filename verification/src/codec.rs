//! The wire text of a document: the canonical rendering of each model shape,
//! a verified renderer, and a verified parser that inverts the renderer.

use vstd::prelude::*;
use vstd::string::StrSliceExecFns;

use crate::model::ValueModel;
use crate::{entries_model, lemma_entries_model, lemma_values_model, value_model, values_model};
use crate::{Json, Value};

verus! {

/// The character for the digit `d`, decimal or lower-case hexadecimal.
pub open spec fn digit_char(d: int) -> char {
    if d == 0 {
        '0'
    } else if d == 1 {
        '1'
    } else if d == 2 {
        '2'
    } else if d == 3 {
        '3'
    } else if d == 4 {
        '4'
    } else if d == 5 {
        '5'
    } else if d == 6 {
        '6'
    } else if d == 7 {
        '7'
    } else if d == 8 {
        '8'
    } else if d == 9 {
        '9'
    } else if d == 10 {
        'a'
    } else if d == 11 {
        'b'
    } else if d == 12 {
        'c'
    } else if d == 13 {
        'd'
    } else if d == 14 {
        'e'
    } else {
        'f'
    }
}

/// The decimal digits of a non-negative number, most significant first.
pub open spec fn dec_chars(n: int) -> Seq<char>
    decreases n,
{
    if n < 10 {
        seq![digit_char(n)]
    } else {
        dec_chars(n / 10).push(digit_char(n % 10))
    }
}

/// The decimal rendering of an integer, with a leading minus when negative.
pub open spec fn int_chars(n: int) -> Seq<char> {
    if n < 0 {
        seq!['-'] + dec_chars(-n)
    } else {
        dec_chars(n)
    }
}

/// The escape of one string character: quote, backslash and the common
/// control characters get a two-character escape, other control characters a
/// four-digit hexadecimal escape, everything else stands as itself.
pub open spec fn esc_char(c: char) -> Seq<char> {
    if c == '"' {
        seq!['\\', '"']
    } else if c == '\\' {
        seq!['\\', '\\']
    } else if c == '\n' {
        seq!['\\', 'n']
    } else if c == '\r' {
        seq!['\\', 'r']
    } else if c == '\t' {
        seq!['\\', 't']
    } else if (c as u32) < 32 {
        seq!['\\', 'u', '0', '0', digit_char((c as u32) as int / 16), digit_char(
            (c as u32) as int % 16,
        )]
    } else {
        seq![c]
    }
}

/// The escape of a whole string body, character by character.
pub open spec fn esc(s: Seq<char>) -> Seq<char>
    decreases s.len(),
{
    if s.len() == 0 {
        Seq::empty()
    } else {
        esc_char(s[0]) + esc(s.drop_first())
    }
}

/// A rendered string: the escaped body between double quotes.
pub open spec fn text_chars(s: Seq<char>) -> Seq<char> {
    seq!['"'] + esc(s) + seq!['"']
}

/// The canonical rendering of a value.
pub open spec fn enc_value(m: ValueModel) -> Seq<char>
    decreases m,
{
    match m {
        ValueModel::Null => seq!['n', 'u', 'l', 'l'],
        ValueModel::Bool(b) => if b {
            seq!['t', 'r', 'u', 'e']
        } else {
            seq!['f', 'a', 'l', 's', 'e']
        },
        ValueModel::Num(n) => int_chars(n as int),
        ValueModel::Text(s) => text_chars(s),
        ValueModel::Array(vs) => seq!['['] + enc_values(vs) + seq![']'],
        ValueModel::Object(es) => seq!['{'] + enc_entries(es) + seq!['}'],
    }
}

/// The renderings of a list of values, separated by commas.
pub open spec fn enc_values(vs: Seq<ValueModel>) -> Seq<char>
    decreases vs,
{
    if vs.len() == 0 {
        Seq::empty()
    } else if vs.len() == 1 {
        enc_value(vs[0])
    } else {
        enc_value(vs[0]) + seq![','] + enc_values(vs.drop_first())
    }
}

/// The rendering of one entry: the quoted key, a colon, the value.
pub open spec fn enc_entry(e: (Seq<char>, ValueModel)) -> Seq<char>
    decreases e,
{
    text_chars(e.0) + seq![':'] + enc_value(e.1)
}

/// The renderings of an entry list, separated by commas.
pub open spec fn enc_entries(es: Seq<(Seq<char>, ValueModel)>) -> Seq<char>
    decreases es,
{
    if es.len() == 0 {
        Seq::empty()
    } else if es.len() == 1 {
        enc_entry(es[0])
    } else {
        enc_entry(es[0]) + seq![','] + enc_entries(es.drop_first())
    }
}

/// The canonical rendering of a whole document.
pub open spec fn doc_text(es: Seq<(Seq<char>, ValueModel)>) -> Seq<char> {
    seq!['{'] + enc_entries(es) + seq!['}']
}

/// Escaping a string extended by one character appends that character's escape.
proof fn lemma_esc_snoc(s: Seq<char>, c: char)
    ensures
        esc(s.push(c)) == esc(s) + esc_char(c),
    decreases s.len(),
{
    if s.len() == 0 {
        assert(s.push(c)[0] == c);
        assert(s.push(c).drop_first() =~= Seq::<char>::empty());
        assert(esc(Seq::<char>::empty()) == Seq::<char>::empty());
        assert(esc(s.push(c)) == esc_char(c) + Seq::<char>::empty());
        assert(esc(s.push(c)) =~= esc(s) + esc_char(c));
    } else {
        lemma_esc_snoc(s.drop_first(), c);
        assert(s.push(c).drop_first() =~= s.drop_first().push(c));
        assert(s.push(c)[0] == s[0]);
        assert(esc(s.push(c)) == esc_char(s[0]) + (esc(s.drop_first()) + esc_char(c)));
        assert(esc_char(s[0]) + (esc(s.drop_first()) + esc_char(c)) =~= (esc_char(s[0]) + esc(
            s.drop_first(),
        )) + esc_char(c));
    }
}

/// Rendering a value list extended by one value appends a comma (when the
/// list was not empty) and that value's rendering.
proof fn lemma_enc_values_snoc(vs: Seq<ValueModel>, m: ValueModel)
    ensures
        vs.len() == 0 ==> enc_values(vs.push(m)) == enc_value(m),
        vs.len() > 0 ==> enc_values(vs.push(m)) == enc_values(vs) + seq![','] + enc_value(m),
    decreases vs.len(),
{
    if vs.len() == 0 {
        assert(vs.push(m)[0] == m);
        assert(enc_values(vs.push(m)) == enc_value(m));
    } else if vs.len() == 1 {
        assert(vs.push(m)[0] == vs[0]);
        assert(vs.push(m).drop_first() =~= seq![m]);
        assert(enc_values(seq![m]) == enc_value(m));
        assert(enc_values(vs.push(m)) == enc_value(vs[0]) + seq![','] + enc_value(m));
    } else {
        lemma_enc_values_snoc(vs.drop_first(), m);
        assert(vs.push(m)[0] == vs[0]);
        assert(vs.push(m).drop_first() =~= vs.drop_first().push(m));
        assert(enc_values(vs.push(m)) == enc_value(vs[0]) + seq![','] + (enc_values(
            vs.drop_first(),
        ) + seq![','] + enc_value(m)));
        assert(enc_value(vs[0]) + seq![','] + (enc_values(vs.drop_first()) + seq![','] + enc_value(
            m,
        )) =~= (enc_value(vs[0]) + seq![','] + enc_values(vs.drop_first())) + seq![','] + enc_value(
            m,
        ));
    }
}

/// Rendering an entry list extended by one entry appends a comma (when the
/// list was not empty) and that entry's rendering.
proof fn lemma_enc_entries_snoc(es: Seq<(Seq<char>, ValueModel)>, e: (Seq<char>, ValueModel))
    ensures
        es.len() == 0 ==> enc_entries(es.push(e)) == enc_entry(e),
        es.len() > 0 ==> enc_entries(es.push(e)) == enc_entries(es) + seq![','] + enc_entry(e),
    decreases es.len(),
{
    if es.len() == 0 {
        assert(es.push(e)[0] == e);
        assert(enc_entries(es.push(e)) == enc_entry(e));
    } else if es.len() == 1 {
        assert(es.push(e)[0] == es[0]);
        assert(es.push(e).drop_first() =~= seq![e]);
        assert(enc_entries(seq![e]) == enc_entry(e));
        assert(enc_entries(es.push(e)) == enc_entry(es[0]) + seq![','] + enc_entry(e));
    } else {
        lemma_enc_entries_snoc(es.drop_first(), e);
        assert(es.push(e)[0] == es[0]);
        assert(es.push(e).drop_first() =~= es.drop_first().push(e));
        assert(enc_entries(es.push(e)) == enc_entry(es[0]) + seq![','] + (enc_entries(
            es.drop_first(),
        ) + seq![','] + enc_entry(e)));
        assert(enc_entry(es[0]) + seq![','] + (enc_entries(es.drop_first()) + seq![','] + enc_entry(
            e,
        )) =~= (enc_entry(es[0]) + seq![','] + enc_entries(es.drop_first())) + seq![','] + enc_entry(
            e,
        ));
    }
}

/// The digit character for `d`.
fn digit(d: u8) -> (c: char)
    requires
        d < 16,
    ensures
        c == digit_char(d as int),
{
    match d {
        0 => '0',
        1 => '1',
        2 => '2',
        3 => '3',
        4 => '4',
        5 => '5',
        6 => '6',
        7 => '7',
        8 => '8',
        9 => '9',
        10 => 'a',
        11 => 'b',
        12 => 'c',
        13 => 'd',
        14 => 'e',
        _ => 'f',
    }
}

/// Appends the decimal digits of `n`.
fn push_dec(out: &mut Vec<char>, n: u64)
    ensures
        final(out)@ == old(out)@ + dec_chars(n as int),
    decreases n,
{
    if n < 10 {
        out.push(digit(n as u8));
        proof {
            assert(out@ =~= old(out)@ + dec_chars(n as int));
        }
    } else {
        push_dec(out, n / 10);
        out.push(digit((n % 10) as u8));
        proof {
            assert(out@ =~= old(out)@ + dec_chars(n as int));
        }
    }
}

/// Appends the decimal rendering of `n`, with a minus sign when negative.
fn push_int(out: &mut Vec<char>, n: i64)
    ensures
        final(out)@ == old(out)@ + int_chars(n as int),
{
    if n < 0 {
        out.push('-');
        let mag: u64 = if n == i64::MIN {
            9223372036854775808u64
        } else {
            (-n) as u64
        };
        proof {
            assert(mag as int == -(n as int));
        }
        push_dec(out, mag);
        proof {
            assert(out@ =~= old(out)@ + int_chars(n as int));
        }
    } else {
        push_dec(out, n as u64);
    }
}

/// Appends the escaped body of `s`.
#[verifier::loop_isolation(false)]
fn push_escaped(out: &mut Vec<char>, s: &str)
    ensures
        final(out)@ == old(out)@ + esc(s@),
{
    let n = s.unicode_len();
    let mut i: usize = 0;
    while i < n
        invariant
            n == s@.len(),
            i <= n,
            out@ == old(out)@ + esc(s@.take(i as int)),
        decreases n - i,
    {
        let c = s.get_char(i);
        proof {
            lemma_esc_snoc(s@.take(i as int), c);
            assert(s@.take(i as int).push(c) =~= s@.take(i as int + 1));
        }
        let code: u32 = c as u32;
        if c == '"' {
            out.push('\\');
            out.push('"');
        } else if c == '\\' {
            out.push('\\');
            out.push('\\');
        } else if c == '\n' {
            out.push('\\');
            out.push('n');
        } else if c == '\r' {
            out.push('\\');
            out.push('r');
        } else if c == '\t' {
            out.push('\\');
            out.push('t');
        } else if code < 32 {
            out.push('\\');
            out.push('u');
            out.push('0');
            out.push('0');
            out.push(digit((code / 16) as u8));
            out.push(digit((code % 16) as u8));
        } else {
            out.push(c);
        }
        proof {
            assert(out@ =~= old(out)@ + esc(s@.take(i as int + 1)));
        }
        i += 1;
    }
    proof {
        assert(s@.take(n as int) =~= s@);
    }
}

/// Appends the rendering of a string: quote, escaped body, quote.
fn push_text(out: &mut Vec<char>, s: &str)
    ensures
        final(out)@ == old(out)@ + text_chars(s@),
{
    out.push('"');
    push_escaped(out, s);
    out.push('"');
    proof {
        assert(out@ =~= old(out)@ + text_chars(s@));
    }
}

/// Appends the canonical rendering of `v`.
#[verifier::loop_isolation(false)]
fn push_value(out: &mut Vec<char>, v: &Value)
    ensures
        final(out)@ == old(out)@ + enc_value(v@),
    decreases *v,
{
    match v {
        Value::Null => {
            out.push('n');
            out.push('u');
            out.push('l');
            out.push('l');
            proof {
                assert(out@ =~= old(out)@ + enc_value(v@));
            }
        },
        Value::Bool(b) => {
            if *b {
                out.push('t');
                out.push('r');
                out.push('u');
                out.push('e');
            } else {
                out.push('f');
                out.push('a');
                out.push('l');
                out.push('s');
                out.push('e');
            }
            proof {
                assert(out@ =~= old(out)@ + enc_value(v@));
            }
        },
        Value::Num(n) => {
            push_int(out, *n);
        },
        Value::Text(s) => {
            push_text(out, s.as_str());
        },
        Value::Array(a) => {
            out.push('[');
            let ghost base = out@;
            let ghost vm = values_model(a@);
            proof {
                lemma_values_model(a@);
            }
            let n = a.len();
            let mut i: usize = 0;
            while i < n
                invariant
                    n == a@.len(),
                    i <= n,
                    i == 0 ==> out@ == base,
                    i > 0 ==> out@ == base + enc_values(vm.take(i as int)),
                decreases n - i,
            {
                if i > 0 {
                    out.push(',');
                }
                let ghost mid = out@;
                proof {
                    assert(decreases_to!(*v => *a));
                    assert(decreases_to!(*a => a@));
                    assert(decreases_to!(a@ => a@[i as int]));
                }
                push_value(out, &a[i]);
                proof {
                    lemma_enc_values_snoc(vm.take(i as int), vm[i as int]);
                    assert(vm.take(i as int).push(vm[i as int]) =~= vm.take(i as int + 1));
                    assert(value_model(a@[i as int]) == vm[i as int]);
                    if i == 0 {
                        assert(out@ =~= base + enc_values(vm.take(1)));
                    } else {
                        assert(out@ == mid + enc_value(vm[i as int]));
                        assert(out@ =~= base + enc_values(vm.take(i as int + 1)));
                    }
                }
                i += 1;
            }
            proof {
                if n == 0 {
                    assert(enc_values(vm) =~= Seq::<char>::empty());
                    assert(out@ =~= base + enc_values(vm));
                } else {
                    assert(vm.take(n as int) =~= vm);
                }
            }
            out.push(']');
            proof {
                assert(out@ =~= old(out)@ + enc_value(v@));
            }
        },
        Value::Object(j) => {
            push_doc(out, j);
            proof {
                assert(out@ =~= old(out)@ + enc_value(v@));
            }
        },
    }
}

/// Appends the canonical rendering of a whole document.
#[verifier::loop_isolation(false)]
fn push_doc(out: &mut Vec<char>, d: &Json)
    ensures
        final(out)@ == old(out)@ + doc_text(d@),
    decreases *d,
{
    out.push('{');
    let ghost base = out@;
    let ghost em = entries_model(d.entries@);
    proof {
        lemma_entries_model(d.entries@);
    }
    let n = d.entries.len();
    let mut i: usize = 0;
    while i < n
        invariant
            n == d.entries@.len(),
            i <= n,
            i == 0 ==> out@ == base,
            i > 0 ==> out@ == base + enc_entries(em.take(i as int)),
        decreases n - i,
    {
        if i > 0 {
            out.push(',');
        }
        let ghost mid = out@;
        push_text(out, d.entries[i].0.as_str());
        out.push(':');
        proof {
            assert(decreases_to!(*d => d.entries));
            assert(decreases_to!(d.entries => d.entries@));
            assert(decreases_to!(d.entries@ => d.entries@[i as int]));
            assert(decreases_to!(d.entries@[i as int] => d.entries@[i as int].1));
        }
        push_value(out, &d.entries[i].1);
        proof {
            lemma_enc_entries_snoc(em.take(i as int), em[i as int]);
            assert(em.take(i as int).push(em[i as int]) =~= em.take(i as int + 1));
            assert(em[i as int] == (d.entries@[i as int].0@, value_model(d.entries@[i as int].1)));
            assert(out@ == mid + text_chars(d.entries@[i as int].0@) + seq![':'] + enc_value(
                value_model(d.entries@[i as int].1),
            ));
            assert(out@ =~= mid + enc_entry(em[i as int]));
            if i == 0 {
                assert(out@ =~= base + enc_entries(em.take(1)));
            } else {
                assert(out@ =~= base + enc_entries(em.take(i as int + 1)));
            }
        }
        i += 1;
    }
    proof {
        if n == 0 {
            assert(enc_entries(em) =~= Seq::<char>::empty());
            assert(out@ =~= base + enc_entries(em));
        } else {
            assert(em.take(n as int) =~= em);
        }
    }
    out.push('}');
    proof {
        assert(out@ =~= old(out)@ + doc_text(d@));
    }
}

/// Relies on std's `String`: collecting an iterator of `char`s yields the
/// string whose characters are exactly those items, in order.
#[verifier::external_body]
fn string_from_chars(chars: &Vec<char>) -> (r: String)
    ensures
        r@ == chars@,
{
    chars.iter().collect()
}

/// A failure to parse a wire string; `at` is the position where parsing stopped.
#[derive(Debug)]
pub struct DecodeError {
    pub at: usize,
}

/// A whitespace character of the wire format.
spec fn is_ws(c: char) -> bool {
    c == ' ' || c == '\t' || c == '\n' || c == '\r'
}

/// A decimal digit character.
spec fn is_digit(c: char) -> bool {
    48 <= (c as u32) && (c as u32) <= 57
}

/// The numeric value of a decimal digit character.
spec fn digit_val(c: char) -> int {
    (c as u32) - 48
}

/// The number denoted by a sequence of decimal digits, most significant first.
spec fn num_of(t: Seq<char>) -> int
    decreases t.len(),
{
    if t.len() == 0 {
        0
    } else {
        num_of(t.drop_last()) * 10 + digit_val(t.last())
    }
}

/// What may follow a rendered value inside a document: nothing, or a
/// separator or closer.
spec fn boundary(t: Seq<char>) -> bool {
    t.len() == 0 || t[0] == ',' || t[0] == '}' || t[0] == ']' || is_ws(t[0])
}

/// `t` begins with the rendering of the value `m`, followed by `rest`.
spec fn starts_value(t: Seq<char>, m: ValueModel, rest: Seq<char>) -> bool {
    t == enc_value(m) + rest
}

/// `t` begins with the rendering of the string `u`, followed by `rest`.
spec fn starts_text(t: Seq<char>, u: Seq<char>, rest: Seq<char>) -> bool {
    t == text_chars(u) + rest
}

/// `t` begins with the rendering of the number `n`, followed by `rest`.
spec fn starts_int(t: Seq<char>, n: i64, rest: Seq<char>) -> bool {
    t == int_chars(n as int) + rest
}

/// `t` begins with the renderings of the entries `es`, then a closing brace,
/// then `rest`.
spec fn starts_members(
    t: Seq<char>,
    es: Seq<(Seq<char>, ValueModel)>,
    rest: Seq<char>,
) -> bool {
    t == enc_entries(es) + seq!['}'] + rest
}

/// Escaping distributes over concatenation.
proof fn lemma_esc_cat(a: Seq<char>, b: Seq<char>)
    ensures
        esc(a + b) == esc(a) + esc(b),
    decreases a.len(),
{
    if a.len() == 0 {
        assert(a + b =~= b);
        assert(esc(a) + esc(b) =~= esc(b));
    } else {
        lemma_esc_cat(a.drop_first(), b);
        assert((a + b).drop_first() =~= a.drop_first() + b);
        assert((a + b)[0] == a[0]);
        assert(esc(a + b) == esc_char(a[0]) + (esc(a.drop_first()) + esc(b)));
        assert(esc_char(a[0]) + (esc(a.drop_first()) + esc(b)) =~= (esc_char(a[0]) + esc(
            a.drop_first(),
        )) + esc(b));
    }
}

/// Every character of a rendered non-negative number is a decimal digit.
proof fn lemma_dec_chars_digits(n: int)
    requires
        n >= 0,
    ensures
        dec_chars(n).len() >= 1,
        forall|j: int| 0 <= j < dec_chars(n).len() ==> is_digit(#[trigger] dec_chars(n)[j]),
    decreases n,
{
    if n < 10 {
        assert(is_digit(digit_char(n)));
    } else {
        lemma_dec_chars_digits(n / 10);
        assert(is_digit(digit_char(n % 10)));
        assert forall|j: int| 0 <= j < dec_chars(n).len() implies is_digit(
            #[trigger] dec_chars(n)[j],
        ) by {
            if j < dec_chars(n / 10).len() {
                assert(dec_chars(n)[j] == dec_chars(n / 10)[j]);
            } else {
                assert(dec_chars(n)[j] == digit_char(n % 10));
            }
        }
    }
}

/// Reading the digits of a rendered number gives the number back.
proof fn lemma_num_of_dec_chars(n: int)
    requires
        n >= 0,
    ensures
        num_of(dec_chars(n)) == n,
    decreases n,
{
    if n < 10 {
        assert(dec_chars(n).last() == digit_char(n));
        assert(dec_chars(n).drop_last() =~= Seq::<char>::empty());
        assert(num_of(Seq::<char>::empty()) == 0);
        assert(digit_val(digit_char(n)) == n);
    } else {
        lemma_num_of_dec_chars(n / 10);
        assert(dec_chars(n).last() == digit_char(n % 10));
        assert(dec_chars(n).drop_last() =~= dec_chars(n / 10));
        assert(digit_val(digit_char(n % 10)) == n % 10);
    }
}

/// A digit run's value only grows as the run extends.
proof fn lemma_num_of_prefix(t: Seq<char>, k: int)
    requires
        0 <= k <= t.len(),
        forall|j: int| 0 <= j < t.len() ==> is_digit(#[trigger] t[j]),
    ensures
        num_of(t.take(k)) <= num_of(t),
        num_of(t) >= 0,
    decreases t.len(),
{
    if t.len() == 0 {
    } else {
        lemma_num_of_prefix(t.drop_last(), if k <= t.len() - 1 {
            k
        } else {
            t.len() - 1
        });
        assert(digit_val(t.last()) >= 0);
        if k <= t.len() - 1 {
            assert(t.drop_last().take(k) =~= t.take(k));
        } else {
            assert(t.take(k) =~= t);
        }
    }
}

/// A rendered value is never empty, and its first character names its shape.
proof fn lemma_enc_value_first(m: ValueModel)
    ensures
        enc_value(m).len() > 0,
        m is Null ==> enc_value(m)[0] == 'n',
        m is Bool ==> enc_value(m)[0] == 't' || enc_value(m)[0] == 'f',
        m is Num ==> enc_value(m)[0] == '-' || is_digit(enc_value(m)[0]),
        m is Text ==> enc_value(m)[0] == '"',
        m is Array ==> enc_value(m)[0] == '[',
        m is Object ==> enc_value(m)[0] == '{',
{
    match m {
        ValueModel::Num(n) => {
            if n >= 0 {
                lemma_dec_chars_digits(n as int);
                assert(enc_value(m)[0] == dec_chars(n as int)[0]);
            } else {
                lemma_dec_chars_digits(-(n as int));
                assert(enc_value(m)[0] == '-');
            }
        },
        _ => {},
    }
}

/// Whether `c` is a whitespace character of the wire format.
fn ws_char(c: char) -> (r: bool)
    ensures
        r == is_ws(c),
{
    c == ' ' || c == '\t' || c == '\n' || c == '\r'
}

/// Skips whitespace: the result points at the first non-whitespace character
/// at or after `i`, or at the end.
#[verifier::loop_isolation(false)]
fn skip_ws(s: &Vec<char>, i: usize) -> (j: usize)
    requires
        i <= s@.len(),
    ensures
        i <= j <= s@.len(),
        forall|q: int| i <= q < j ==> is_ws(#[trigger] s@[q]),
        j < s@.len() ==> !is_ws(s@[j as int]),
{
    let mut j = i;
    while j < s.len() && ws_char(s[j])
        invariant
            i <= j <= s@.len(),
            forall|q: int| i <= q < j ==> is_ws(#[trigger] s@[q]),
        decreases s@.len() - j,
    {
        j += 1;
    }
    j
}

/// The value of a hexadecimal digit character, upper or lower case.
fn hex_val(c: char) -> (r: Option<u8>)
    ensures
        r matches Some(d) ==> d < 16,
        forall|d: u8| d < 16 && digit_char(d as int) == c ==> r == Some(d),
{
    let u = c as u32;
    if 48 <= u && u <= 57 {
        Some((u - 48) as u8)
    } else if 97 <= u && u <= 102 {
        Some((u - 87) as u8)
    } else if 65 <= u && u <= 70 {
        Some((u - 55) as u8)
    } else {
        None
    }
}

/// Two characters with the same code point are the same character.
proof fn lemma_char_code_eq(a: char, b: char)
    requires
        a as u32 == b as u32,
    ensures
        a == b,
{
}

/// Whether `c` is a decimal digit character.
fn digit_exec(c: char) -> (r: bool)
    ensures
        r == is_digit(c),
{
    let u = c as u32;
    48 <= u && u <= 57
}

/// The number a rendered integer puts into the text: where it begins, that
/// its digits are exactly the rendering of its magnitude, and that the text
/// ends or goes on with a non-digit right after them.
proof fn lemma_int_premise(s: Seq<char>, i: int, n: i64, rest: Seq<char>)
    requires
        starts_int(s.skip(i), n, rest),
        boundary(rest),
        0 <= i <= s.len(),
    ensures
        ({
            let neg = n < 0;
            let ds = if neg {
                i + 1
            } else {
                i
            };
            let mag = if neg {
                -(n as int)
            } else {
                n as int
            };
            let dl = dec_chars(mag).len() as int;
            &&& (neg ==> i < s.len() && s[i] == '-')
            &&& (!neg ==> i < s.len() && is_digit(s[i]) && s[i] != '-')
            &&& ds + dl <= s.len()
            &&& (forall|j: int| ds <= j < ds + dl ==> is_digit(#[trigger] s[j]))
            &&& s.subrange(ds, ds + dl) == dec_chars(mag)
            &&& (ds + dl < s.len() ==> !is_digit(s[ds + dl]))
            &&& num_of(dec_chars(mag)) == mag
            &&& 0 <= mag <= 0x8000000000000000
            &&& i + int_chars(n as int).len() == ds + dl
        }),
{
    let neg = n < 0;
    let ds = if neg {
        i + 1
    } else {
        i
    };
    let mag = if neg {
        -(n as int)
    } else {
        n as int
    };
    let dl = dec_chars(mag).len() as int;
    lemma_dec_chars_digits(mag);
    lemma_num_of_dec_chars(mag);
    assert(s.skip(i).len() == s.len() - i);
    assert(s.skip(i).len() == int_chars(n as int).len() + rest.len());
    assert forall|q: int| 0 <= q < int_chars(n as int).len() implies s[i + q] == int_chars(
        n as int,
    )[q] by {
        assert(s[i + q] == s.skip(i)[q]);
        assert(s.skip(i)[q] == (int_chars(n as int) + rest)[q]);
    }
    if neg {
        assert(int_chars(n as int)[0] == '-');
        assert(s[i] == '-');
        assert forall|j: int| ds <= j < ds + dl implies is_digit(#[trigger] s[j]) by {
            assert(int_chars(n as int)[j - i] == dec_chars(mag)[j - ds]);
            assert(s[j] == dec_chars(mag)[j - ds]);
        }
        assert forall|q: int| 0 <= q < dl implies s.subrange(ds, ds + dl)[q] == dec_chars(
            mag,
        )[q] by {
            assert(s[ds + q] == int_chars(n as int)[ds + q - i]);
            assert(int_chars(n as int)[ds + q - i] == dec_chars(mag)[q]);
        }
        assert(s.subrange(ds, ds + dl) =~= dec_chars(mag));
    } else {
        assert(int_chars(n as int)[0] == dec_chars(mag)[0]);
        assert(is_digit(s[i]));
        assert(('-' as u32) == 45);
        assert forall|j: int| ds <= j < ds + dl implies is_digit(#[trigger] s[j]) by {
            assert(int_chars(n as int)[j - i] == dec_chars(mag)[j - ds]);
            assert(s[j] == dec_chars(mag)[j - ds]);
        }
        assert forall|q: int| 0 <= q < dl implies s.subrange(ds, ds + dl)[q] == dec_chars(
            mag,
        )[q] by {
            assert(s[ds + q] == int_chars(n as int)[ds + q - i]);
            assert(int_chars(n as int)[ds + q - i] == dec_chars(mag)[q]);
        }
        assert(s.subrange(ds, ds + dl) =~= dec_chars(mag));
    }
    if ds + dl < s.len() {
        if rest.len() == 0 {
            assert(false);
        } else {
            assert(s[ds + dl] == s.skip(i)[ds + dl - i]);
            assert(s.skip(i)[ds + dl - i] == rest[0]);
            assert(!is_digit(rest[0]));
        }
    }
}

/// Reads a run of decimal digits `s[start..endd]` as a number, unless it does
/// not fit the machine word.
#[verifier::loop_isolation(false)]
fn digits_to_u64(s: &Vec<char>, start: usize, endd: usize) -> (r: Option<u64>)
    requires
        start <= endd <= s@.len(),
        forall|j: int| start <= j < endd ==> is_digit(#[trigger] s@[j]),
    ensures
        r matches Some(v) ==> v as int == num_of(s@.subrange(start as int, endd as int)),
        r is None ==> num_of(s@.subrange(start as int, endd as int)) > u64::MAX,
{
    let ghost run = s@.subrange(start as int, endd as int);
    proof {
        assert forall|j: int| 0 <= j < run.len() implies is_digit(#[trigger] run[j]) by {
            assert(run[j] == s@[start + j]);
        }
    }
    let mut acc: u64 = 0;
    let mut q = start;
    while q < endd
        invariant
            start <= q <= endd,
            acc as int == num_of(s@.subrange(start as int, q as int)),
        decreases endd - q,
    {
        let c = s[q];
        let d: u64 = ((c as u32) - 48) as u64;
        proof {
            assert(s@.subrange(start as int, q as int + 1).drop_last() =~= s@.subrange(
                start as int,
                q as int,
            ));
            assert(s@.subrange(start as int, q as int + 1).last() == s@[q as int]);
            assert(d as int == digit_val(s@[q as int]));
        }
        if acc > 1844674407370955161u64 || (acc == 1844674407370955161u64 && d > 5) {
            proof {
                assert(num_of(s@.subrange(start as int, q as int + 1)) == acc * 10 + d);
                assert(num_of(s@.subrange(start as int, q as int + 1)) > u64::MAX);
                assert(run.take(q as int + 1 - start) =~= s@.subrange(start as int, q as int + 1));
                lemma_num_of_prefix(run, q as int + 1 - start);
            }
            return None;
        }
        acc = acc * 10 + d;
        q += 1;
    }
    Some(acc)
}

/// Parses a rendered number at `i`: an optional minus sign and a digit run.
/// On the rendering of any number (followed by a boundary) it succeeds and
/// returns exactly that number and the position after its digits.
#[verifier::loop_isolation(false)]
#[verifier::rlimit(60)]
fn parse_number(s: &Vec<char>, i: usize) -> (r: Result<(i64, usize), DecodeError>)
    requires
        i <= s@.len(),
    ensures
        r matches Ok(p) ==> i < p.1 <= s@.len(),
        forall|n: i64, rest: Seq<char>|
            #[trigger] starts_int(s@.skip(i as int), n, rest) && boundary(rest) ==> (r matches Ok(
                p,
            ) && p.0 == n && p.1 == i + int_chars(n as int).len()),
{
    let mut neg = false;
    let mut dstart = i;
    if i < s.len() && s[i] == '-' {
        neg = true;
        dstart = i + 1;
    }
    let mut dend = dstart;
    while dend < s.len() && digit_exec(s[dend])
        invariant
            dstart <= dend <= s@.len(),
            forall|j: int| dstart <= j < dend ==> is_digit(#[trigger] s@[j]),
        decreases s@.len() - dend,
    {
        dend += 1;
    }
    if dend == dstart {
        proof {
            assert forall|n: i64, rest: Seq<char>| !(#[trigger] starts_int(
                s@.skip(i as int),
                n,
                rest,
            ) && boundary(rest)) by {
                if starts_int(s@.skip(i as int), n, rest) && boundary(rest) {
                    lemma_int_premise(s@, i as int, n, rest);
                }
            }
        }
        return Err(DecodeError { at: i });
    }
    proof {
        assert forall|n: i64, rest: Seq<char>| #[trigger] starts_int(s@.skip(i as int), n, rest)
            && boundary(rest) implies ({
            let mag = if n < 0 {
                -(n as int)
            } else {
                n as int
            };
            &&& (n < 0 <==> neg)
            &&& dend == dstart + dec_chars(mag).len()
            &&& s@.subrange(dstart as int, dend as int) == dec_chars(mag)
            &&& num_of(s@.subrange(dstart as int, dend as int)) == mag
            &&& 0 <= mag <= 0x8000000000000000
            &&& dend == i + int_chars(n as int).len()
        }) by {
            lemma_int_premise(s@, i as int, n, rest);
            let mag = if n < 0 {
                -(n as int)
            } else {
                n as int
            };
            let ds = if n < 0 {
                i + 1
            } else {
                i as int
            };
            let dl = dec_chars(mag).len() as int;
            assert(n < 0 <==> neg);
            assert(ds == dstart);
            if dend < ds + dl {
                assert(is_digit(s@[dend as int]));
                assert(false);
            }
            if dend > ds + dl {
                assert(is_digit(s@[ds + dl]));
                assert(false);
            }
        }
    }
    match digits_to_u64(s, dstart, dend) {
        None => {
            proof {
                assert forall|n: i64, rest: Seq<char>| !(#[trigger] starts_int(
                    s@.skip(i as int),
                    n,
                    rest,
                ) && boundary(rest)) by {
                    if starts_int(s@.skip(i as int), n, rest) && boundary(rest) {
                        lemma_int_premise(s@, i as int, n, rest);
                    }
                }
            }
            Err(DecodeError { at: dstart })
        },
        Some(mag) => {
            if neg {
                if mag > 9223372036854775808u64 {
                    proof {
                        assert forall|n: i64, rest: Seq<char>| !(#[trigger] starts_int(
                            s@.skip(i as int),
                            n,
                            rest,
                        ) && boundary(rest)) by {
                            if starts_int(s@.skip(i as int), n, rest) && boundary(rest) {
                                lemma_int_premise(s@, i as int, n, rest);
                            }
                        }
                    }
                    Err(DecodeError { at: dstart })
                } else {
                    let val: i64 = if mag == 9223372036854775808u64 {
                        i64::MIN
                    } else {
                        -(mag as i64)
                    };
                    Ok((val, dend))
                }
            } else {
                if mag > 9223372036854775807u64 {
                    proof {
                        assert forall|n: i64, rest: Seq<char>| !(#[trigger] starts_int(
                            s@.skip(i as int),
                            n,
                            rest,
                        ) && boundary(rest)) by {
                            if starts_int(s@.skip(i as int), n, rest) && boundary(rest) {
                                lemma_int_premise(s@, i as int, n, rest);
                            }
                        }
                    }
                    Err(DecodeError { at: dstart })
                } else {
                    Ok((mag as i64, dend))
                }
            }
        },
    }
}

/// What the text looks like in the middle of a rendered string: after the
/// escapes of the first `k` characters of `t`, the escape of character `k`
/// follows (or the closing quote, when all of `t` has been passed).
proof fn lemma_string_step(s: Seq<char>, i: int, k: int, p0: int, t: Seq<char>, rest: Seq<char>)
    requires
        starts_text(s.skip(i), t, rest),
        0 <= i,
        i + 1 <= p0 <= s.len(),
        0 <= k <= t.len(),
        p0 == i + 1 + esc(t.take(k)).len(),
    ensures
        esc(t).len() == esc(t.take(k)).len() + esc(t.skip(k)).len(),
        i + 2 + esc(t).len() <= s.len(),
        p0 < s.len(),
        k < t.len() ==> {
            &&& esc(t.skip(k)) == esc_char(t[k]) + esc(t.skip(k + 1))
            &&& 1 <= esc_char(t[k]).len()
            &&& p0 + esc_char(t[k]).len() < s.len()
            &&& forall|q: int|
                0 <= q < esc_char(t[k]).len() ==> s[p0 + q] == esc_char(t[k])[q]
        },
        k == t.len() ==> s[p0] == '"',
{
    lemma_esc_cat(t.take(k), t.skip(k));
    assert(t.take(k) + t.skip(k) =~= t);
    let e = esc(t);
    let lk = esc(t.take(k)).len() as int;
    assert(s.skip(i).len() == s.len() - i);
    assert(s.skip(i).len() == text_chars(t).len() + rest.len());
    assert(text_chars(t).len() == e.len() + 2);
    if k < t.len() {
        assert(t.skip(k)[0] == t[k]);
        assert(t.skip(k).drop_first() =~= t.skip(k + 1));
        assert(esc(t.skip(k)) == esc_char(t[k]) + esc(t.skip(k + 1)));
        assert(1 <= esc_char(t[k]).len());
        assert(lk + esc_char(t[k]).len() <= e.len());
        assert forall|q: int| 0 <= q < esc_char(t[k]).len() implies s[p0 + q] == esc_char(
            t[k],
        )[q] by {
            assert(s[p0 + q] == s.skip(i)[p0 + q - i]);
            assert(s.skip(i)[p0 + q - i] == text_chars(t)[1 + lk + q]);
            assert(text_chars(t)[1 + lk + q] == e[lk + q]);
            assert(e[lk + q] == esc(t.skip(k))[q]);
            assert(esc(t.skip(k))[q] == esc_char(t[k])[q]);
        }
    } else {
        assert(t.take(k) =~= t);
        assert(s[p0] == s.skip(i)[p0 - i]);
        assert(s.skip(i)[p0 - i] == text_chars(t)[1 + lk]);
        assert(text_chars(t)[1 + e.len() as int] == '"');
    }
}

/// Parses a rendered string at `i`: a quote, escaped characters, a quote.
/// On the rendering of any string `t` (followed by anything) it succeeds and
/// returns exactly `t` and the position after the closing quote.
#[verifier::loop_isolation(false)]
#[verifier::rlimit(60)]
fn parse_string(s: &Vec<char>, i: usize) -> (r: Result<(String, usize), DecodeError>)
    requires
        i <= s@.len(),
    ensures
        r matches Ok(p) ==> i + 2 <= p.1 <= s@.len(),
        forall|t: Seq<char>, rest: Seq<char>|
            #[trigger] starts_text(s@.skip(i as int), t, rest) ==> (r matches Ok(p) && p.0@ == t
                && p.1 == i + text_chars(t).len()),
{
    if i >= s.len() || s[i] != '"' {
        proof {
            assert forall|t: Seq<char>, rest: Seq<char>| !(#[trigger] starts_text(
                s@.skip(i as int),
                t,
                rest,
            )) by {
                if starts_text(s@.skip(i as int), t, rest) {
                    assert(s@.skip(i as int).len() == s@.len() - i);
                    assert(text_chars(t).len() >= 2);
                    assert(i < s@.len());
                    assert(s@.skip(i as int)[0] == s@[i as int]);
                    assert(s@.skip(i as int)[0] == text_chars(t)[0]);
                    assert(text_chars(t)[0] == '"');
                }
            }
        }
        return Err(DecodeError { at: i });
    }
    let mut buf: Vec<char> = Vec::new();
    let mut p: usize = i + 1;
    loop
        invariant
            i + 1 <= p <= s@.len(),
            i < s@.len() && s@[i as int] == '"',
            forall|t: Seq<char>, rest: Seq<char>|
                #[trigger] starts_text(s@.skip(i as int), t, rest) ==> {
                    &&& buf@.len() <= t.len()
                    &&& buf@ == t.take(buf@.len() as int)
                    &&& p == i + 1 + esc(t.take(buf@.len() as int)).len()
                },
        decreases s@.len() - p,
    {
        let ghost k = buf@.len() as int;
        let ghost p0 = p as int;
        let ghost buf0 = buf@;
        if p >= s.len() {
            proof {
                assert forall|t: Seq<char>, rest: Seq<char>| !(#[trigger] starts_text(
                    s@.skip(i as int),
                    t,
                    rest,
                )) by {
                    if starts_text(s@.skip(i as int), t, rest) {
                        lemma_string_step(s@, i as int, k, p0, t, rest);
                    }
                }
            }
            return Err(DecodeError { at: p });
        }
        let c = s[p];
        if c == '"' {
            let out = string_from_chars(&buf);
            proof {
                assert forall|t: Seq<char>, rest: Seq<char>| #[trigger] starts_text(
                    s@.skip(i as int),
                    t,
                    rest,
                ) implies (buf0 == t && p0 + 1 == i + text_chars(t).len()) by {
                    lemma_string_step(s@, i as int, k, p0, t, rest);
                    if k < t.len() {
                        assert(s@[p0] == esc_char(t[k])[0]);
                        assert(esc_char(t[k])[0] != '"');
                        assert(false);
                    }
                    assert(buf0 =~= t);
                }
            }
            return Ok((out, p + 1));
        }
        if c == '\\' {
            if p + 1 >= s.len() {
                proof {
                    assert forall|t: Seq<char>, rest: Seq<char>| !(#[trigger] starts_text(
                        s@.skip(i as int),
                        t,
                        rest,
                    )) by {
                        if starts_text(s@.skip(i as int), t, rest) {
                            lemma_string_step(s@, i as int, k, p0, t, rest);
                            if k < t.len() {
                                assert(s@[p0] == esc_char(t[k])[0]);
                                assert(esc_char(t[k]).len() >= 2);
                            } else {
                                assert(s@[p0] == '"');
                            }
                        }
                    }
                }
                return Err(DecodeError { at: p });
            }
            let e = s[p + 1];
            proof {
                assert forall|t: Seq<char>, rest: Seq<char>| #[trigger] starts_text(
                    s@.skip(i as int),
                    t,
                    rest,
                ) implies (k < t.len() && esc_char(t[k])[0] == '\\' && esc_char(t[k])[1] == s@[p0
                    + 1]) by {
                    lemma_string_step(s@, i as int, k, p0, t, rest);
                    if k == t.len() {
                        assert(s@[p0] == '"');
                        assert(false);
                    }
                    assert(s@[p0] == esc_char(t[k])[0]);
                    assert(esc_char(t[k])[0] == '\\');
                    assert(esc_char(t[k]).len() >= 2);
                }
            }
            if e == '"' || e == '\\' || e == '/' {
                buf.push(e);
                p = p + 2;
                proof {
                    assert forall|t: Seq<char>, rest: Seq<char>| #[trigger] starts_text(
                        s@.skip(i as int),
                        t,
                        rest,
                    ) implies (buf@.len() <= t.len() && buf@ == t.take(buf@.len() as int) && p == i
                        + 1 + esc(t.take(buf@.len() as int)).len()) by {
                        lemma_string_step(s@, i as int, k, p0, t, rest);
                        assert(esc_char(t[k])[1] == s@[p0 + 1]);
                        assert(t[k] == s@[p0 + 1]);
                        assert(esc_char(t[k]).len() == 2);
                        assert(t.take(k).push(t[k]) =~= t.take(k + 1));
                        lemma_esc_snoc(t.take(k), t[k]);
                        assert(buf@ == t.take(k + 1));
                    }
                }
            } else if e == 'n' || e == 'r' || e == 't' || e == 'b' || e == 'f' {
                let decoded: char = if e == 'n' {
                    '\n'
                } else if e == 'r' {
                    '\r'
                } else if e == 't' {
                    '\t'
                } else if e == 'b' {
                    '\u{0008}'
                } else {
                    '\u{000C}'
                };
                buf.push(decoded);
                p = p + 2;
                proof {
                    assert forall|t: Seq<char>, rest: Seq<char>| #[trigger] starts_text(
                        s@.skip(i as int),
                        t,
                        rest,
                    ) implies (buf@.len() <= t.len() && buf@ == t.take(buf@.len() as int) && p == i
                        + 1 + esc(t.take(buf@.len() as int)).len()) by {
                        lemma_string_step(s@, i as int, k, p0, t, rest);
                        assert(esc_char(t[k])[1] == s@[p0 + 1]);
                        assert(t[k] == decoded);
                        assert(esc_char(t[k]).len() == 2);
                        assert(t.take(k).push(t[k]) =~= t.take(k + 1));
                        lemma_esc_snoc(t.take(k), t[k]);
                        assert(buf@ == t.take(k + 1));
                    }
                }
            } else if e == 'u' {
                if s.len() - p < 6 {
                    proof {
                        assert forall|t: Seq<char>, rest: Seq<char>| !(#[trigger] starts_text(
                            s@.skip(i as int),
                            t,
                            rest,
                        )) by {
                            if starts_text(s@.skip(i as int), t, rest) {
                                lemma_string_step(s@, i as int, k, p0, t, rest);
                                assert(esc_char(t[k])[1] == s@[p0 + 1]);
                                assert(esc_char(t[k]).len() == 6);
                            }
                        }
                    }
                    return Err(DecodeError { at: p });
                }
                let h1 = hex_val(s[p + 2]);
                let h2 = hex_val(s[p + 3]);
                let h3 = hex_val(s[p + 4]);
                let h4 = hex_val(s[p + 5]);
                proof {
                    assert forall|t: Seq<char>, rest: Seq<char>| #[trigger] starts_text(
                        s@.skip(i as int),
                        t,
                        rest,
                    ) implies ((t[k] as u32) < 32 && h1 == Some(0u8) && h2 == Some(0u8) && h3
                        == Some(((t[k] as u32) / 16) as u8) && h4 == Some(
                        ((t[k] as u32) % 16) as u8,
                    )) by {
                        lemma_string_step(s@, i as int, k, p0, t, rest);
                        assert(esc_char(t[k])[1] == s@[p0 + 1]);
                        assert((t[k] as u32) < 32);
                        assert(esc_char(t[k]).len() == 6);
                        assert(s@[p0 + 2] == '0' && s@[p0 + 3] == '0');
                        assert(digit_char(0) == '0');
                        assert(s@[p0 + 4] == digit_char((t[k] as u32) as int / 16));
                        assert(s@[p0 + 5] == digit_char((t[k] as u32) as int % 16));
                    }
                }
                let d1 = match h1 {
                    Some(d) => d,
                    None => {
                        return Err(DecodeError { at: p });
                    },
                };
                let d2 = match h2 {
                    Some(d) => d,
                    None => {
                        return Err(DecodeError { at: p });
                    },
                };
                let d3 = match h3 {
                    Some(d) => d,
                    None => {
                        return Err(DecodeError { at: p });
                    },
                };
                let d4 = match h4 {
                    Some(d) => d,
                    None => {
                        return Err(DecodeError { at: p });
                    },
                };
                let code: u32 = (d1 as u32) * 4096 + (d2 as u32) * 256 + (d3 as u32) * 16 + (
                d4 as u32);
                let decoded = match char_from_code(code) {
                    Some(ch) => ch,
                    None => {
                        return Err(DecodeError { at: p });
                    },
                };
                proof {
                    assert(decoded as u32 == code);
                }
                buf.push(decoded);
                p = p + 6;
                proof {
                    assert forall|t: Seq<char>, rest: Seq<char>| #[trigger] starts_text(
                        s@.skip(i as int),
                        t,
                        rest,
                    ) implies (buf@.len() <= t.len() && buf@ == t.take(buf@.len() as int) && p == i
                        + 1 + esc(t.take(buf@.len() as int)).len()) by {
                        lemma_string_step(s@, i as int, k, p0, t, rest);
                        assert((t[k] as u32) < 32);
                        assert(code == t[k] as u32);
                        assert(decoded as u32 == t[k] as u32);
                        lemma_char_code_eq(decoded, t[k]);
                        assert(esc_char(t[k]).len() == 6);
                        assert(t.take(k).push(t[k]) =~= t.take(k + 1));
                        lemma_esc_snoc(t.take(k), t[k]);
                        assert(buf@ == t.take(k + 1));
                    }
                }
            } else {
                proof {
                    assert forall|t: Seq<char>, rest: Seq<char>| !(#[trigger] starts_text(
                        s@.skip(i as int),
                        t,
                        rest,
                    )) by {
                        if starts_text(s@.skip(i as int), t, rest) {
                            lemma_string_step(s@, i as int, k, p0, t, rest);
                            assert(esc_char(t[k])[1] == s@[p0 + 1]);
                        }
                    }
                }
                return Err(DecodeError { at: p });
            }
        } else {
            let code: u32 = c as u32;
            if code < 32 {
                proof {
                    assert forall|t: Seq<char>, rest: Seq<char>| !(#[trigger] starts_text(
                        s@.skip(i as int),
                        t,
                        rest,
                    )) by {
                        if starts_text(s@.skip(i as int), t, rest) {
                            lemma_string_step(s@, i as int, k, p0, t, rest);
                            if k < t.len() {
                                assert(s@[p0] == esc_char(t[k])[0]);
                            } else {
                                assert(s@[p0] == '"');
                            }
                        }
                    }
                }
                return Err(DecodeError { at: p });
            }
            buf.push(c);
            p = p + 1;
            proof {
                assert forall|t: Seq<char>, rest: Seq<char>| #[trigger] starts_text(
                    s@.skip(i as int),
                    t,
                    rest,
                ) implies (buf@.len() <= t.len() && buf@ == t.take(buf@.len() as int) && p == i + 1
                    + esc(t.take(buf@.len() as int)).len()) by {
                    lemma_string_step(s@, i as int, k, p0, t, rest);
                    if k == t.len() {
                        assert(s@[p0] == '"');
                        assert(false);
                    }
                    assert(s@[p0] == esc_char(t[k])[0]);
                    assert(t[k] == s@[p0]);
                    assert(esc_char(t[k]) == seq![t[k]]);
                    assert(t.take(k).push(t[k]) =~= t.take(k + 1));
                    lemma_esc_snoc(t.take(k), t[k]);
                    assert(buf@ == t.take(k + 1));
                }
            }
        }
    }
}

/// `t` begins with the rendering of a whole document with entries `es`,
/// followed by `rest`.
spec fn starts_obj(t: Seq<char>, es: Seq<(Seq<char>, ValueModel)>, rest: Seq<char>) -> bool {
    t == doc_text(es) + rest
}

/// `t` begins with the renderings of the values `vs`, then a closing bracket,
/// then `rest`.
spec fn starts_elements(t: Seq<char>, vs: Seq<ValueModel>, rest: Seq<char>) -> bool {
    t == enc_values(vs) + seq![']'] + rest
}

/// Where a rendered value stands in the text: the text is long enough for
/// it, and its first character names the shape of the value.
proof fn lemma_value_premise_first(s: Seq<char>, i: int, m: ValueModel, rest: Seq<char>)
    requires
        starts_value(s.skip(i), m, rest),
        0 <= i <= s.len(),
    ensures
        i < s.len(),
        s[i] == enc_value(m)[0],
        enc_value(m).len() > 0,
        i + enc_value(m).len() + rest.len() == s.len(),
        !is_ws(s[i]),
        s[i] != ']' && s[i] != '}' && s[i] != ',' && s[i] != ':',
        m is Null ==> s[i] == 'n',
        m is Bool ==> s[i] == 't' || s[i] == 'f',
        m is Num ==> s[i] == '-' || is_digit(s[i]),
        m is Text ==> s[i] == '"',
        m is Array ==> s[i] == '[',
        m is Object ==> s[i] == '{',
        forall|q: int| 0 <= q < enc_value(m).len() ==> s[i + q] == enc_value(m)[q],
{
    lemma_enc_value_first(m);
    assert(s.skip(i).len() == s.len() - i);
    assert(s.skip(i).len() == enc_value(m).len() + rest.len());
    assert forall|q: int| 0 <= q < enc_value(m).len() implies s[i + q] == enc_value(m)[q] by {
        assert(s[i + q] == s.skip(i)[q]);
        assert(s.skip(i)[q] == (enc_value(m) + rest)[q]);
    }
    assert(s[i] == enc_value(m)[0]);
    if m is Num && s[i] != '-' {
        assert(is_digit(s[i]));
        assert((' ' as u32) == 32 && ('\t' as u32) == 9 && ('\n' as u32) == 10 && ('\r' as u32)
            == 13);
        assert((']' as u32) == 93 && ('}' as u32) == 125 && (',' as u32) == 44 && (':' as u32)
            == 58);
    }
}

/// Finds the position of `key` among the entries, if it is present.
#[verifier::loop_isolation(false)]
fn find_key(entries: &Vec<(String, Value)>, key: &String) -> (r: Option<usize>)
    ensures
        match r {
            Some(idx) => idx < entries@.len() && entries@[idx as int].0@ == key@,
            None => forall|j: int| 0 <= j < entries@.len() ==> (#[trigger] entries@[j]).0@ != key@,
        },
{
    let n = entries.len();
    let mut q: usize = 0;
    while q < n
        invariant
            q <= n,
            n == entries@.len(),
            forall|j: int| 0 <= j < q ==> (#[trigger] entries@[j]).0@ != key@,
        decreases n - q,
    {
        if entries[q].0 == *key {
            return Some(q);
        }
        q += 1;
    }
    None
}

/// The characters of a string slice, in order.
#[verifier::loop_isolation(false)]
fn str_to_chars(s: &str) -> (r: Vec<char>)
    ensures
        r@ == s@,
{
    let n = s.unicode_len();
    let mut v: Vec<char> = Vec::new();
    let mut q: usize = 0;
    while q < n
        invariant
            n == s@.len(),
            q <= n,
            v@ == s@.take(q as int),
        decreases n - q,
    {
        v.push(s.get_char(q));
        proof {
            assert(v@ =~= s@.take(q as int + 1));
        }
        q += 1;
    }
    proof {
        assert(s@.take(n as int) =~= s@);
    }
    v
}

/// Parses one rendered value at `i`.  On the rendering of any well-formed
/// value (followed by a boundary) it succeeds and returns exactly that value
/// and the position right after its rendering.
#[verifier::loop_isolation(false)]
#[verifier::rlimit(100)]
fn parse_value(s: &Vec<char>, i: usize) -> (r: Result<(Value, usize), DecodeError>)
    requires
        i <= s@.len(),
    ensures
        r matches Ok(p) ==> i < p.1 <= s@.len() && crate::model::wf_model(p.0@),
        forall|m: ValueModel, rest: Seq<char>|
            #[trigger] starts_value(s@.skip(i as int), m, rest) && crate::model::wf_model(m)
                && boundary(rest) ==> (r matches Ok(p) && p.0@ == m && p.1 == i + enc_value(
                m,
            ).len()),
    decreases s@.len() - i, 1int,
{
    if i >= s.len() {
        proof {
            assert forall|m: ValueModel, rest: Seq<char>| !(#[trigger] starts_value(
                s@.skip(i as int),
                m,
                rest,
            ) && crate::model::wf_model(m) && boundary(rest)) by {
                if starts_value(s@.skip(i as int), m, rest) {
                    lemma_value_premise_first(s@, i as int, m, rest);
                }
            }
        }
        return Err(DecodeError { at: i });
    }
    let c = s[i];
    if c == 'n' {
        if s.len() - i >= 4 && s[i + 1] == 'u' && s[i + 2] == 'l' && s[i + 3] == 'l' {
            proof {
                assert forall|m: ValueModel, rest: Seq<char>| #[trigger] starts_value(
                    s@.skip(i as int),
                    m,
                    rest,
                ) && crate::model::wf_model(m) && boundary(rest) implies (m == ValueModel::Null && 4
                    == enc_value(m).len()) by {
                    lemma_value_premise_first(s@, i as int, m, rest);
                }
            }
            Ok((Value::Null, i + 4))
        } else {
            proof {
                assert forall|m: ValueModel, rest: Seq<char>| !(#[trigger] starts_value(
                    s@.skip(i as int),
                    m,
                    rest,
                ) && crate::model::wf_model(m) && boundary(rest)) by {
                    if starts_value(s@.skip(i as int), m, rest) {
                        lemma_value_premise_first(s@, i as int, m, rest);
                    }
                }
            }
            Err(DecodeError { at: i })
        }
    } else if c == 't' {
        if s.len() - i >= 4 && s[i + 1] == 'r' && s[i + 2] == 'u' && s[i + 3] == 'e' {
            proof {
                assert forall|m: ValueModel, rest: Seq<char>| #[trigger] starts_value(
                    s@.skip(i as int),
                    m,
                    rest,
                ) && crate::model::wf_model(m) && boundary(rest) implies (m == ValueModel::Bool(
                    true,
                ) && 4 == enc_value(m).len()) by {
                    lemma_value_premise_first(s@, i as int, m, rest);
                }
            }
            Ok((Value::Bool(true), i + 4))
        } else {
            proof {
                assert forall|m: ValueModel, rest: Seq<char>| !(#[trigger] starts_value(
                    s@.skip(i as int),
                    m,
                    rest,
                ) && crate::model::wf_model(m) && boundary(rest)) by {
                    if starts_value(s@.skip(i as int), m, rest) {
                        lemma_value_premise_first(s@, i as int, m, rest);
                    }
                }
            }
            Err(DecodeError { at: i })
        }
    } else if c == 'f' {
        if s.len() - i >= 5 && s[i + 1] == 'a' && s[i + 2] == 'l' && s[i + 3] == 's' && s[i + 4]
            == 'e' {
            proof {
                assert forall|m: ValueModel, rest: Seq<char>| #[trigger] starts_value(
                    s@.skip(i as int),
                    m,
                    rest,
                ) && crate::model::wf_model(m) && boundary(rest) implies (m == ValueModel::Bool(
                    false,
                ) && 5 == enc_value(m).len()) by {
                    lemma_value_premise_first(s@, i as int, m, rest);
                }
            }
            Ok((Value::Bool(false), i + 5))
        } else {
            proof {
                assert forall|m: ValueModel, rest: Seq<char>| !(#[trigger] starts_value(
                    s@.skip(i as int),
                    m,
                    rest,
                ) && crate::model::wf_model(m) && boundary(rest)) by {
                    if starts_value(s@.skip(i as int), m, rest) {
                        lemma_value_premise_first(s@, i as int, m, rest);
                    }
                }
            }
            Err(DecodeError { at: i })
        }
    } else if c == '"' {
        match parse_string(s, i) {
            Ok((st, j)) => {
                proof {
                    assert forall|m: ValueModel, rest: Seq<char>| #[trigger] starts_value(
                        s@.skip(i as int),
                        m,
                        rest,
                    ) && crate::model::wf_model(m) && boundary(rest) implies (m
                        == ValueModel::Text(st@) && j == i + enc_value(m).len()) by {
                        lemma_value_premise_first(s@, i as int, m, rest);
                        let t = m->Text_0;
                        assert(enc_value(m) == text_chars(t));
                        assert(starts_text(s@.skip(i as int), t, rest));
                    }
                }
                Ok((Value::Text(st), j))
            },
            Err(e) => {
                proof {
                    assert forall|m: ValueModel, rest: Seq<char>| !(#[trigger] starts_value(
                        s@.skip(i as int),
                        m,
                        rest,
                    ) && crate::model::wf_model(m) && boundary(rest)) by {
                        if starts_value(s@.skip(i as int), m, rest) {
                            lemma_value_premise_first(s@, i as int, m, rest);
                            if m is Text {
                                let t = m->Text_0;
                                assert(starts_text(s@.skip(i as int), t, rest));
                            }
                        }
                    }
                }
                Err(e)
            },
        }
    } else if c == '-' || digit_exec(c) {
        match parse_number(s, i) {
            Ok((n, j)) => {
                proof {
                    assert forall|m: ValueModel, rest: Seq<char>| #[trigger] starts_value(
                        s@.skip(i as int),
                        m,
                        rest,
                    ) && crate::model::wf_model(m) && boundary(rest) implies (m == ValueModel::Num(
                        n,
                    ) && j == i + enc_value(m).len()) by {
                        lemma_value_premise_first(s@, i as int, m, rest);
                        let nm = m->Num_0;
                        assert(enc_value(m) == int_chars(nm as int));
                        assert(starts_int(s@.skip(i as int), nm, rest));
                    }
                }
                Ok((Value::Num(n), j))
            },
            Err(e) => {
                proof {
                    assert forall|m: ValueModel, rest: Seq<char>| !(#[trigger] starts_value(
                        s@.skip(i as int),
                        m,
                        rest,
                    ) && crate::model::wf_model(m) && boundary(rest)) by {
                        if starts_value(s@.skip(i as int), m, rest) {
                            lemma_value_premise_first(s@, i as int, m, rest);
                            if m is Num {
                                let nm = m->Num_0;
                                assert(starts_int(s@.skip(i as int), nm, rest));
                            }
                        }
                    }
                }
                Err(e)
            },
        }
    } else if c == '[' {
        let q = skip_ws(s, i + 1);
        if q < s.len() && s[q] == ']' {
            let out: Vec<Value> = Vec::new();
            proof {
                assert(values_model(out@) =~= Seq::<ValueModel>::empty());
                assert forall|m: ValueModel, rest: Seq<char>| #[trigger] starts_value(
                    s@.skip(i as int),
                    m,
                    rest,
                ) && crate::model::wf_model(m) && boundary(rest) implies (m == ValueModel::Array(
                    Seq::<ValueModel>::empty(),
                ) && q + 1 == i + enc_value(m).len()) by {
                    lemma_value_premise_first(s@, i as int, m, rest);
                    assert(m is Array);
                    let vs = m->Array_0;
                    lemma_array_body(s@, i as int, m, rest, q as int);
                    if vs.len() > 0 {
                        assert(s@[q as int] != ']');
                        assert(false);
                    }
                    assert(vs =~= Seq::<ValueModel>::empty());
                    assert(m == ValueModel::Array(vs));
                    assert(enc_values(vs) =~= Seq::<char>::empty());
                    assert(enc_value(m).len() == 2);
                }
            }
            Ok((Value::Array(out), q + 1))
        } else {
            match parse_elements(s, q) {
                Ok((vals, j2)) => {
                    proof {
                        assert forall|m: ValueModel, rest: Seq<char>| #[trigger] starts_value(
                            s@.skip(i as int),
                            m,
                            rest,
                        ) && crate::model::wf_model(m) && boundary(rest) implies (m
                            == ValueModel::Array(values_model(vals@)) && j2 == i + enc_value(
                            m,
                        ).len()) by {
                            lemma_value_premise_first(s@, i as int, m, rest);
                            let vs = m->Array_0;
                            lemma_array_body(s@, i as int, m, rest, q as int);
                            assert(starts_elements(s@.skip(q as int), vs, rest));
                        }
                    }
                    Ok((Value::Array(vals), j2))
                },
                Err(e) => {
                    proof {
                        assert forall|m: ValueModel, rest: Seq<char>| !(#[trigger] starts_value(
                            s@.skip(i as int),
                            m,
                            rest,
                        ) && crate::model::wf_model(m) && boundary(rest)) by {
                            if starts_value(s@.skip(i as int), m, rest) && crate::model::wf_model(
                                m,
                            ) {
                                lemma_value_premise_first(s@, i as int, m, rest);
                                if m is Array {
                                    let vs = m->Array_0;
                                    lemma_array_body(s@, i as int, m, rest, q as int);
                                    assert(starts_elements(s@.skip(q as int), vs, rest));
                                }
                            }
                        }
                    }
                    Err(e)
                },
            }
        }
    } else if c == '{' {
        match parse_obj(s, i) {
            Ok((d, j2)) => {
                proof {
                    assert forall|m: ValueModel, rest: Seq<char>| #[trigger] starts_value(
                        s@.skip(i as int),
                        m,
                        rest,
                    ) && crate::model::wf_model(m) && boundary(rest) implies (m
                        == ValueModel::Object(d@) && j2 == i + enc_value(m).len()) by {
                        lemma_value_premise_first(s@, i as int, m, rest);
                        let es = m->Object_0;
                        assert(enc_value(m) == doc_text(es));
                        assert(starts_obj(s@.skip(i as int), es, rest));
                    }
                }
                Ok((Value::Object(d), j2))
            },
            Err(e) => {
                proof {
                    assert forall|m: ValueModel, rest: Seq<char>| !(#[trigger] starts_value(
                        s@.skip(i as int),
                        m,
                        rest,
                    ) && crate::model::wf_model(m) && boundary(rest)) by {
                        if starts_value(s@.skip(i as int), m, rest) && crate::model::wf_model(m) {
                            lemma_value_premise_first(s@, i as int, m, rest);
                            if m is Object {
                                let es = m->Object_0;
                                assert(starts_obj(s@.skip(i as int), es, rest));
                            }
                        }
                    }
                }
                Err(e)
            },
        }
    } else {
        proof {
            assert forall|m: ValueModel, rest: Seq<char>| !(#[trigger] starts_value(
                s@.skip(i as int),
                m,
                rest,
            ) && crate::model::wf_model(m) && boundary(rest)) by {
                if starts_value(s@.skip(i as int), m, rest) {
                    lemma_value_premise_first(s@, i as int, m, rest);
                }
            }
        }
        Err(DecodeError { at: i })
    }
}

/// The trailing part of a non-empty value list's rendering: everything after
/// the first value.
spec fn enc_tail_values(vs: Seq<ValueModel>) -> Seq<char> {
    if vs.len() <= 1 {
        Seq::empty()
    } else {
        seq![','] + enc_values(vs.drop_first())
    }
}

/// Inside a rendered array, the element list begins right after the opening
/// bracket, and any whitespace skip there stands still.
proof fn lemma_array_body(s: Seq<char>, i: int, m: ValueModel, rest: Seq<char>, q: int)
    requires
        starts_value(s.skip(i), m, rest),
        m is Array,
        0 <= i,
        i + 1 <= q <= s.len(),
        forall|x: int| i + 1 <= x < q ==> is_ws(#[trigger] s[x]),
    ensures
        q == i + 1,
        s.skip(i + 1) == enc_values(m->Array_0) + seq![']'] + rest,
        m->Array_0.len() == 0 ==> i + 1 < s.len() && s[i + 1] == ']',
        m->Array_0.len() > 0 ==> starts_value(
            s.skip(i + 1),
            m->Array_0[0],
            enc_tail_values(m->Array_0) + seq![']'] + rest,
        ) && s[i + 1] != ']',
{
    let vs = m->Array_0;
    assert(enc_value(m) == seq!['['] + enc_values(vs) + seq![']']);
    assert(s.skip(i).len() == s.len() - i);
    assert(s.skip(i).len() == enc_value(m).len() + rest.len());
    assert forall|x: int| 0 <= x < s.len() - (i + 1) implies s.skip(i + 1)[x] == (enc_values(vs)
        + seq![']'] + rest)[x] by {
        assert(s.skip(i + 1)[x] == s.skip(i)[x + 1]);
        assert(s.skip(i)[x + 1] == (enc_value(m) + rest)[x + 1]);
    }
    assert(s.skip(i + 1) =~= enc_values(vs) + seq![']'] + rest);
    if vs.len() == 0 {
        assert(enc_values(vs) =~= Seq::<char>::empty());
        assert(s[i + 1] == s.skip(i + 1)[0]);
        assert(s[i + 1] == ']');
        assert((']' as u32) == 93);
        if q > i + 1 {
            assert(is_ws(s[i + 1]));
            assert(false);
        }
    } else {
        assert(enc_values(vs) == enc_value(vs[0]) + enc_tail_values(vs)) by {
            if vs.len() == 1 {
                assert(enc_value(vs[0]) + enc_tail_values(vs) =~= enc_value(vs[0]));
            }
        }
        assert(s.skip(i + 1) =~= enc_value(vs[0]) + (enc_tail_values(vs) + seq![']'] + rest));
        lemma_value_premise_first(s, i + 1, vs[0], enc_tail_values(vs) + seq![']'] + rest);
        if q > i + 1 {
            assert(is_ws(s[i + 1]));
            assert(false);
        }
    }
}

/// The trailing part of a non-empty entry list's rendering: everything after
/// the first entry.
spec fn enc_tail_entries(es: Seq<(Seq<char>, ValueModel)>) -> Seq<char> {
    if es.len() <= 1 {
        Seq::empty()
    } else {
        seq![','] + enc_entries(es.drop_first())
    }
}

/// How a non-empty element list is laid out in the text: the first value,
/// then a comma and the remaining values, or the closing bracket.
proof fn lemma_elements_split(s: Seq<char>, i: int, vs: Seq<ValueModel>, rest: Seq<char>)
    requires
        starts_elements(s.skip(i), vs, rest),
        vs.len() >= 1,
        0 <= i <= s.len(),
    ensures
        starts_value(s.skip(i), vs[0], enc_tail_values(vs) + seq![']'] + rest),
        boundary(enc_tail_values(vs) + seq![']'] + rest),
        ({
            let j1 = i + enc_value(vs[0]).len();
            &&& i < j1 <= s.len()
            &&& (vs.len() == 1 ==> j1 < s.len() && s[j1] == ']' && !is_ws(s[j1]) && i + enc_values(
                vs,
            ).len() + 1 == j1 + 1)
            &&& (vs.len() > 1 ==> j1 < s.len() && s[j1] == ',' && !is_ws(s[j1]) && starts_elements(
                s.skip(j1 + 1),
                vs.drop_first(),
                rest,
            ) && i + enc_values(vs).len() + 1 == (j1 + 1) + enc_values(vs.drop_first()).len() + 1)
        }),
{
    lemma_enc_value_first(vs[0]);
    let tail = enc_tail_values(vs) + seq![']'] + rest;
    assert(enc_values(vs) == enc_value(vs[0]) + enc_tail_values(vs)) by {
        if vs.len() == 1 {
            assert(enc_value(vs[0]) + enc_tail_values(vs) =~= enc_value(vs[0]));
        }
    }
    assert(s.skip(i) =~= enc_value(vs[0]) + tail);
    assert(starts_value(s.skip(i), vs[0], tail));
    assert((',' as u32) == 44 && (']' as u32) == 93 && (' ' as u32) == 32 && ('\t' as u32) == 9
        && ('\n' as u32) == 10 && ('\r' as u32) == 13);
    let j1 = i + enc_value(vs[0]).len();
    assert(s.skip(i).len() == s.len() - i);
    assert(s[j1] == s.skip(i)[j1 - i]);
    assert(s.skip(i)[j1 - i] == tail[0]);
    if vs.len() == 1 {
        assert(tail[0] == ']');
    } else {
        assert(enc_tail_values(vs)[0] == ',');
        assert(tail[0] == ',');
        assert forall|x: int| 0 <= x < s.len() - (j1 + 1) implies s.skip(j1 + 1)[x] == (enc_values(
            vs.drop_first(),
        ) + seq![']'] + rest)[x] by {
            assert(s.skip(j1 + 1)[x] == s.skip(i)[j1 + 1 - i + x]);
            assert(s.skip(i)[j1 + 1 - i + x] == (enc_value(vs[0]) + tail)[j1 + 1 - i + x]);
            assert(tail[1 + x] == (enc_tail_values(vs))[1 + x] || tail[1 + x] == (seq![']']
                + rest)[1 + x - enc_tail_values(vs).len()]);
        }
        assert(s.skip(j1 + 1) =~= enc_values(vs.drop_first()) + seq![']'] + rest);
    }
}

/// How a non-empty entry list is laid out in the text: the first key, a
/// colon, the first value, then a comma and the remaining entries, or the
/// closing brace.
proof fn lemma_members_split(s: Seq<char>, i: int, es: Seq<(Seq<char>, ValueModel)>, rest: Seq<
    char,
>)
    requires
        starts_members(s.skip(i), es, rest),
        es.len() >= 1,
        0 <= i <= s.len(),
    ensures
        i < s.len(),
        s[i] == '"',
        !is_ws(s[i]),
        starts_text(
            s.skip(i),
            es[0].0,
            seq![':'] + enc_value(es[0].1) + (enc_tail_entries(es) + seq!['}'] + rest),
        ),
        ({
            let j1 = i + text_chars(es[0].0).len();
            let j4 = j1 + 1 + enc_value(es[0].1).len();
            &&& i < j1 < s.len()
            &&& s[j1] == ':' && !is_ws(s[j1])
            &&& starts_value(s.skip(j1 + 1), es[0].1, enc_tail_entries(es) + seq!['}'] + rest)
            &&& boundary(enc_tail_entries(es) + seq!['}'] + rest)
            &&& j4 <= s.len()
            &&& (es.len() == 1 ==> j4 < s.len() && s[j4] == '}' && !is_ws(s[j4]) && i + enc_entries(
                es,
            ).len() + 1 == j4 + 1)
            &&& (es.len() > 1 ==> j4 < s.len() && s[j4] == ',' && !is_ws(s[j4]) && starts_members(
                s.skip(j4 + 1),
                es.drop_first(),
                rest,
            ) && i + enc_entries(es).len() + 1 == (j4 + 1) + enc_entries(es.drop_first()).len() + 1)
        }),
{
    let k0 = es[0].0;
    let v0 = es[0].1;
    let tail = enc_tail_entries(es) + seq!['}'] + rest;
    assert(enc_entries(es) == enc_entry(es[0]) + enc_tail_entries(es)) by {
        if es.len() == 1 {
            assert(enc_entry(es[0]) + enc_tail_entries(es) =~= enc_entry(es[0]));
        }
    }
    assert(enc_entry(es[0]) == text_chars(k0) + seq![':'] + enc_value(v0));
    assert(s.skip(i).len() == s.len() - i);
    assert(s.skip(i).len() == enc_entries(es).len() + 1 + rest.len());
    assert(s.skip(i) =~= text_chars(k0) + (seq![':'] + enc_value(v0) + tail));
    assert(starts_text(s.skip(i), k0, seq![':'] + enc_value(v0) + tail));
    assert((',' as u32) == 44 && ('}' as u32) == 125 && (':' as u32) == 58 && ('"' as u32) == 34
        && (' ' as u32) == 32 && ('\t' as u32) == 9 && ('\n' as u32) == 10 && ('\r' as u32) == 13);
    assert(s[i] == s.skip(i)[0]);
    assert(text_chars(k0).len() >= 2);
    assert(s.skip(i)[0] == text_chars(k0)[0]);
    let j1 = i + text_chars(k0).len();
    assert(s[j1] == s.skip(i)[j1 - i]);
    assert(s.skip(i)[j1 - i] == (seq![':'] + enc_value(v0) + tail)[0]);
    assert forall|x: int| 0 <= x < s.len() - (j1 + 1) implies s.skip(j1 + 1)[x] == (enc_value(v0)
        + tail)[x] by {
        assert(s.skip(j1 + 1)[x] == s.skip(i)[j1 + 1 - i + x]);
    }
    assert(s.skip(j1 + 1) =~= enc_value(v0) + tail);
    assert(starts_value(s.skip(j1 + 1), v0, tail));
    lemma_enc_value_first(v0);
    let j4 = j1 + 1 + enc_value(v0).len();
    assert(s[j4] == s.skip(j1 + 1)[j4 - j1 - 1]) by {
        assert(s.skip(j1 + 1).len() == s.len() - j1 - 1);
        assert(s.skip(j1 + 1).len() == enc_value(v0).len() + tail.len());
    }
    assert(s.skip(j1 + 1)[enc_value(v0).len() as int] == tail[0]);
    if es.len() == 1 {
        assert(tail[0] == '}');
    } else {
        assert(enc_tail_entries(es)[0] == ',');
        assert(tail[0] == ',');
        assert forall|x: int| 0 <= x < s.len() - (j4 + 1) implies s.skip(j4 + 1)[x] == (enc_entries(
            es.drop_first(),
        ) + seq!['}'] + rest)[x] by {
            assert(s.skip(j4 + 1)[x] == s.skip(j1 + 1)[j4 + 1 - j1 - 1 + x]);
            assert(s.skip(j1 + 1)[enc_value(v0).len() + 1 + x] == tail[1 + x]);
            assert(tail[1 + x] == (enc_tail_entries(es))[1 + x] || tail[1 + x] == (seq!['}']
                + rest)[1 + x - enc_tail_entries(es).len()]);
        }
        assert(s.skip(j4 + 1) =~= enc_entries(es.drop_first()) + seq!['}'] + rest);
    }
}

/// Inside a rendered document, the entry list begins right after the opening
/// brace, and any whitespace skip there stands still.
proof fn lemma_obj_body(
    s: Seq<char>,
    i: int,
    es: Seq<(Seq<char>, ValueModel)>,
    rest: Seq<char>,
    q: int,
)
    requires
        starts_obj(s.skip(i), es, rest),
        0 <= i,
        i + 1 <= q <= s.len(),
        forall|x: int| i + 1 <= x < q ==> is_ws(#[trigger] s[x]),
    ensures
        i < s.len(),
        s[i] == '{',
        q == i + 1,
        starts_members(s.skip(i + 1), es, rest),
        es.len() == 0 ==> i + 1 < s.len() && s[i + 1] == '}',
        es.len() > 0 ==> i + 1 < s.len() && s[i + 1] == '"' && s[i + 1] != '}',
{
    assert(doc_text(es) == seq!['{'] + enc_entries(es) + seq!['}']);
    assert(s.skip(i).len() == s.len() - i);
    assert(s.skip(i).len() == doc_text(es).len() + rest.len());
    assert(s[i] == s.skip(i)[0]);
    assert(s.skip(i)[0] == doc_text(es)[0]);
    assert forall|x: int| 0 <= x < s.len() - (i + 1) implies s.skip(i + 1)[x] == (enc_entries(es)
        + seq!['}'] + rest)[x] by {
        assert(s.skip(i + 1)[x] == s.skip(i)[x + 1]);
        assert(s.skip(i)[x + 1] == (doc_text(es) + rest)[x + 1]);
    }
    assert(s.skip(i + 1) =~= enc_entries(es) + seq!['}'] + rest);
    assert(('}' as u32) == 125 && ('"' as u32) == 34 && (' ' as u32) == 32 && ('\t' as u32) == 9
        && ('\n' as u32) == 10 && ('\r' as u32) == 13);
    if es.len() == 0 {
        assert(enc_entries(es) =~= Seq::<char>::empty());
        assert(s[i + 1] == s.skip(i + 1)[0]);
        assert(s[i + 1] == '}');
        if q > i + 1 {
            assert(is_ws(s[i + 1]));
            assert(false);
        }
    } else {
        lemma_members_split(s, i + 1, es, rest);
        if q > i + 1 {
            assert(is_ws(s[i + 1]));
            assert(false);
        }
    }
}

/// Parses the elements of a rendered array, from the first value through the
/// closing bracket.  On the rendering of any non-empty well-formed value
/// list it succeeds and returns exactly those values.
#[verifier::loop_isolation(false)]
#[verifier::rlimit(100)]
fn parse_elements(s: &Vec<char>, i: usize) -> (r: Result<(Vec<Value>, usize), DecodeError>)
    requires
        i <= s@.len(),
    ensures
        r matches Ok(p) ==> i < p.1 <= s@.len() && crate::model::wf_model(
            ValueModel::Array(values_model(p.0@)),
        ),
        forall|vs: Seq<ValueModel>, rest: Seq<char>|
            #[trigger] starts_elements(s@.skip(i as int), vs, rest) && vs.len() >= 1
                && crate::model::wf_model(ValueModel::Array(vs)) ==> (r matches Ok(p)
                && values_model(p.0@) == vs && p.1 == i + enc_values(vs).len() + 1),
    decreases s@.len() - i, 2int,
{
    let j0 = skip_ws(s, i);
    let val = match parse_value(s, j0) {
        Ok(p) => p,
        Err(e) => {
            proof {
                assert forall|vs: Seq<ValueModel>, rest: Seq<char>| !(#[trigger] starts_elements(
                    s@.skip(i as int),
                    vs,
                    rest,
                ) && vs.len() >= 1 && crate::model::wf_model(ValueModel::Array(vs))) by {
                    if starts_elements(s@.skip(i as int), vs, rest) && vs.len() >= 1
                        && crate::model::wf_model(ValueModel::Array(vs)) {
                        lemma_elements_split(s@, i as int, vs, rest);
                        lemma_value_premise_first(
                            s@,
                            i as int,
                            vs[0],
                            enc_tail_values(vs) + seq![']'] + rest,
                        );
                        assert(j0 == i) by {
                            if j0 > i {
                                assert(is_ws(s@[i as int]));
                            }
                        };
                        crate::model::lemma_wf_array_parts(vs);
                        assert(crate::model::wf_model(vs[0]));
                    }
                }
            }
            return Err(e);
        },
    };
    let j1 = val.1;
    let j2 = skip_ws(s, j1);
    proof {
        assert forall|vs: Seq<ValueModel>, rest: Seq<char>| #[trigger] starts_elements(
            s@.skip(i as int),
            vs,
            rest,
        ) && vs.len() >= 1 && crate::model::wf_model(ValueModel::Array(vs)) implies (value_model(
            val.0,
        ) == vs[0] && j1 == i + enc_value(vs[0]).len() && j2 == j1) by {
            lemma_elements_split(s@, i as int, vs, rest);
                        lemma_value_premise_first(
                            s@,
                            i as int,
                            vs[0],
                            enc_tail_values(vs) + seq![']'] + rest,
                        );
                        assert(j0 == i) by {
                            if j0 > i {
                                assert(is_ws(s@[i as int]));
                            }
                        };
            crate::model::lemma_wf_array_parts(vs);
            assert(crate::model::wf_model(vs[0]));
            if j2 > j1 {
                assert(is_ws(s@[j1 as int]));
            }
        }
    }
    if j2 >= s.len() {
        proof {
            assert forall|vs: Seq<ValueModel>, rest: Seq<char>| !(#[trigger] starts_elements(
                s@.skip(i as int),
                vs,
                rest,
            ) && vs.len() >= 1 && crate::model::wf_model(ValueModel::Array(vs))) by {
                if starts_elements(s@.skip(i as int), vs, rest) && vs.len() >= 1
                    && crate::model::wf_model(ValueModel::Array(vs)) {
                    lemma_elements_split(s@, i as int, vs, rest);
                        lemma_value_premise_first(
                            s@,
                            i as int,
                            vs[0],
                            enc_tail_values(vs) + seq![']'] + rest,
                        );
                        assert(j0 == i) by {
                            if j0 > i {
                                assert(is_ws(s@[i as int]));
                            }
                        };
                }
            }
        }
        return Err(DecodeError { at: j2 });
    }
    let c2 = s[j2];
    if c2 == ',' {
        match parse_elements(s, j2 + 1) {
            Ok((mut vals, j3)) => {
                let ghost oldvals = vals@;
                vals.insert(0, val.0);
                proof {
                    assert(vals@.drop_first() =~= oldvals);
                    assert(values_model(vals@) == seq![value_model(val.0)] + values_model(oldvals));
                    assert forall|q2: int| 0 <= q2 < values_model(vals@).len() implies
                        crate::model::wf_model(#[trigger] values_model(vals@)[q2]) by {
                        lemma_values_model(vals@);
                        lemma_values_model(oldvals);
                        if q2 > 0 {
                            assert(values_model(vals@)[q2] == values_model(oldvals)[q2 - 1]);
                            crate::model::lemma_wf_array_parts(values_model(oldvals));
                        }
                    }
                    crate::model::lemma_wf_array_intro(values_model(vals@));
                    assert forall|vs: Seq<ValueModel>, rest: Seq<char>| #[trigger] starts_elements(
                        s@.skip(i as int),
                        vs,
                        rest,
                    ) && vs.len() >= 1 && crate::model::wf_model(ValueModel::Array(vs)) implies (
                    values_model(vals@) == vs && j3 == i + enc_values(vs).len() + 1) by {
                        lemma_elements_split(s@, i as int, vs, rest);
                        lemma_value_premise_first(
                            s@,
                            i as int,
                            vs[0],
                            enc_tail_values(vs) + seq![']'] + rest,
                        );
                        assert(j0 == i) by {
                            if j0 > i {
                                assert(is_ws(s@[i as int]));
                            }
                        };
                        assert(vs.len() > 1);
                        assert(starts_elements(s@.skip(j2 as int + 1), vs.drop_first(), rest));
                        assert(crate::model::wf_model(ValueModel::Array(vs.drop_first()))) by {
                            crate::model::lemma_wf_array_parts(vs);
                            assert forall|q2: int| 0 <= q2 < vs.drop_first().len() implies
                                crate::model::wf_model(#[trigger] vs.drop_first()[q2]) by {
                                assert(vs.drop_first()[q2] == vs[q2 + 1]);
                                assert(crate::model::wf_model(vs[q2 + 1]));
                            }
                            crate::model::lemma_wf_array_intro(vs.drop_first());
                        }
                        assert(values_model(oldvals) == vs.drop_first());
                        assert(values_model(vals@) =~= vs);
                    }
                }
                Ok((vals, j3))
            },
            Err(e) => {
                proof {
                    assert forall|vs: Seq<ValueModel>, rest: Seq<char>| !(#[trigger]
                    starts_elements(s@.skip(i as int), vs, rest) && vs.len() >= 1
                        && crate::model::wf_model(ValueModel::Array(vs))) by {
                        if starts_elements(s@.skip(i as int), vs, rest) && vs.len() >= 1
                            && crate::model::wf_model(ValueModel::Array(vs)) {
                            lemma_elements_split(s@, i as int, vs, rest);
                        lemma_value_premise_first(
                            s@,
                            i as int,
                            vs[0],
                            enc_tail_values(vs) + seq![']'] + rest,
                        );
                        assert(j0 == i) by {
                            if j0 > i {
                                assert(is_ws(s@[i as int]));
                            }
                        };
                            assert(vs.len() > 1);
                            assert(starts_elements(s@.skip(j2 as int + 1), vs.drop_first(), rest));
                            assert(crate::model::wf_model(ValueModel::Array(vs.drop_first()))) by {
                                crate::model::lemma_wf_array_parts(vs);
                                assert forall|q2: int| 0 <= q2 < vs.drop_first().len() implies
                                    crate::model::wf_model(#[trigger] vs.drop_first()[q2]) by {
                                    assert(vs.drop_first()[q2] == vs[q2 + 1]);
                                    assert(crate::model::wf_model(vs[q2 + 1]));
                                }
                                crate::model::lemma_wf_array_intro(vs.drop_first());
                            }
                        }
                    }
                }
                Err(e)
            },
        }
    } else if c2 == ']' {
        let mut vals: Vec<Value> = Vec::new();
        vals.push(val.0);
        proof {
            assert(vals@.drop_first() =~= Seq::<Value>::empty());
            assert(values_model(vals@) == seq![value_model(val.0)] + values_model(
                Seq::<Value>::empty(),
            ));
            assert(values_model(Seq::<Value>::empty()) =~= Seq::<ValueModel>::empty());
            crate::model::lemma_wf_array_intro(values_model(vals@));
            assert forall|vs: Seq<ValueModel>, rest: Seq<char>| #[trigger] starts_elements(
                s@.skip(i as int),
                vs,
                rest,
            ) && vs.len() >= 1 && crate::model::wf_model(ValueModel::Array(vs)) implies (
            values_model(vals@) == vs && j2 + 1 == i + enc_values(vs).len() + 1) by {
                lemma_elements_split(s@, i as int, vs, rest);
                        lemma_value_premise_first(
                            s@,
                            i as int,
                            vs[0],
                            enc_tail_values(vs) + seq![']'] + rest,
                        );
                        assert(j0 == i) by {
                            if j0 > i {
                                assert(is_ws(s@[i as int]));
                            }
                        };
                assert(vs.len() == 1);
                assert(values_model(vals@) =~= vs);
            }
        }
        Ok((vals, j2 + 1))
    } else {
        proof {
            assert forall|vs: Seq<ValueModel>, rest: Seq<char>| !(#[trigger] starts_elements(
                s@.skip(i as int),
                vs,
                rest,
            ) && vs.len() >= 1 && crate::model::wf_model(ValueModel::Array(vs))) by {
                if starts_elements(s@.skip(i as int), vs, rest) && vs.len() >= 1
                    && crate::model::wf_model(ValueModel::Array(vs)) {
                    lemma_elements_split(s@, i as int, vs, rest);
                        lemma_value_premise_first(
                            s@,
                            i as int,
                            vs[0],
                            enc_tail_values(vs) + seq![']'] + rest,
                        );
                        assert(j0 == i) by {
                            if j0 > i {
                                assert(is_ws(s@[i as int]));
                            }
                        };
                }
            }
        }
        Err(DecodeError { at: j2 })
    }
}

/// Parses the entries of a rendered document, from the first key through the
/// closing brace.  On the rendering of any non-empty well-formed entry list
/// it succeeds and returns exactly those entries.
#[verifier::loop_isolation(false)]
#[verifier::rlimit(100)]
fn parse_members(s: &Vec<char>, i: usize) -> (r: Result<(Vec<(String, Value)>, usize), DecodeError>)
    requires
        i <= s@.len(),
    ensures
        r matches Ok(p) ==> i < p.1 <= s@.len() && crate::model::wf_entries(entries_model(p.0@)),
        forall|es: Seq<(Seq<char>, ValueModel)>, rest: Seq<char>|
            #[trigger] starts_members(s@.skip(i as int), es, rest) && es.len() >= 1
                && crate::model::wf_entries(es) ==> (r matches Ok(p) && entries_model(p.0@) == es
                && p.1 == i + enc_entries(es).len() + 1),
    decreases s@.len() - i, 2int,
{
    let j0 = skip_ws(s, i);
    proof {
        assert forall|es: Seq<(Seq<char>, ValueModel)>, rest: Seq<char>| #[trigger] starts_members(
            s@.skip(i as int),
            es,
            rest,
        ) && es.len() >= 1 && crate::model::wf_entries(es) implies j0 == i by {
            lemma_members_split(s@, i as int, es, rest);
            if j0 > i {
                assert(is_ws(s@[i as int]));
            }
        }
    }
    let key = match parse_string(s, j0) {
        Ok(p) => p,
        Err(e) => {
            proof {
                assert forall|es: Seq<(Seq<char>, ValueModel)>, rest: Seq<char>| !(#[trigger]
                starts_members(s@.skip(i as int), es, rest) && es.len() >= 1
                    && crate::model::wf_entries(es)) by {
                    if starts_members(s@.skip(i as int), es, rest) && es.len() >= 1
                        && crate::model::wf_entries(es) {
                        lemma_members_split(s@, i as int, es, rest);
                    }
                }
            }
            return Err(e);
        },
    };
    let j1 = key.1;
    let j2 = skip_ws(s, j1);
    proof {
        assert forall|es: Seq<(Seq<char>, ValueModel)>, rest: Seq<char>| #[trigger] starts_members(
            s@.skip(i as int),
            es,
            rest,
        ) && es.len() >= 1 && crate::model::wf_entries(es) implies (key.0@ == es[0].0 && j1 == i
            + text_chars(es[0].0).len() && j2 == j1 && j2 < s@.len() && s@[j2 as int] == ':') by {
            lemma_members_split(s@, i as int, es, rest);
            if j2 > j1 {
                assert(is_ws(s@[j1 as int]));
            }
        }
    }
    if j2 >= s.len() || s[j2] != ':' {
        proof {
            assert forall|es: Seq<(Seq<char>, ValueModel)>, rest: Seq<char>| !(#[trigger]
            starts_members(s@.skip(i as int), es, rest) && es.len() >= 1
                && crate::model::wf_entries(es)) by {
                if starts_members(s@.skip(i as int), es, rest) && es.len() >= 1
                    && crate::model::wf_entries(es) {
                    lemma_members_split(s@, i as int, es, rest);
                }
            }
        }
        return Err(DecodeError { at: j2 });
    }
    let j3 = skip_ws(s, j2 + 1);
    proof {
        assert forall|es: Seq<(Seq<char>, ValueModel)>, rest: Seq<char>| #[trigger] starts_members(
            s@.skip(i as int),
            es,
            rest,
        ) && es.len() >= 1 && crate::model::wf_entries(es) implies (j3 == j2 + 1 && starts_value(
            s@.skip(j3 as int),
            es[0].1,
            enc_tail_entries(es) + seq!['}'] + rest,
        ) && crate::model::wf_model(es[0].1) && boundary(enc_tail_entries(es) + seq!['}']
            + rest)) by {
            lemma_members_split(s@, i as int, es, rest);
            lemma_enc_value_first(es[0].1);
            if j3 > j2 + 1 {
                assert(s@.skip(j2 as int + 1)[0] == s@[j2 as int + 1]);
                assert(is_ws(s@[j2 as int + 1]));
            }
        }
    }
    let val = match parse_value(s, j3) {
        Ok(p) => p,
        Err(e) => {
            proof {
                assert forall|es: Seq<(Seq<char>, ValueModel)>, rest: Seq<char>| !(#[trigger]
                starts_members(s@.skip(i as int), es, rest) && es.len() >= 1
                    && crate::model::wf_entries(es)) by {
                    if starts_members(s@.skip(i as int), es, rest) && es.len() >= 1
                        && crate::model::wf_entries(es) {
                        lemma_members_split(s@, i as int, es, rest);
                    }
                }
            }
            return Err(e);
        },
    };
    let j4 = val.1;
    let j5 = skip_ws(s, j4);
    proof {
        assert forall|es: Seq<(Seq<char>, ValueModel)>, rest: Seq<char>| #[trigger] starts_members(
            s@.skip(i as int),
            es,
            rest,
        ) && es.len() >= 1 && crate::model::wf_entries(es) implies (value_model(val.0) == es[0].1
            && j4 == j3 + enc_value(es[0].1).len() && j5 == j4 && j5 < s@.len() && (es.len() == 1
            ==> s@[j5 as int] == '}') && (es.len() > 1 ==> s@[j5 as int] == ',')) by {
            lemma_members_split(s@, i as int, es, rest);
            if j5 > j4 {
                assert(is_ws(s@[j4 as int]));
            }
        }
    }
    if j5 >= s.len() {
        proof {
            assert forall|es: Seq<(Seq<char>, ValueModel)>, rest: Seq<char>| !(#[trigger]
            starts_members(s@.skip(i as int), es, rest) && es.len() >= 1
                && crate::model::wf_entries(es)) by {
                if starts_members(s@.skip(i as int), es, rest) && es.len() >= 1
                    && crate::model::wf_entries(es) {
                    lemma_members_split(s@, i as int, es, rest);
                }
            }
        }
        return Err(DecodeError { at: j5 });
    }
    let c5 = s[j5];
    if c5 == ',' {
        match parse_members(s, j5 + 1) {
            Ok((mut entries, j6)) => {
                let ghost older = entries@;
                let dup = find_key(&entries, &key.0);
                match dup {
                    Some(_) => {
                        proof {
                            assert forall|es: Seq<(Seq<char>, ValueModel)>, rest: Seq<char>| !(
                            #[trigger] starts_members(s@.skip(i as int), es, rest) && es.len() >= 1
                                && crate::model::wf_entries(es)) by {
                                if starts_members(s@.skip(i as int), es, rest) && es.len() >= 1
                                    && crate::model::wf_entries(es) {
                                    lemma_members_split(s@, i as int, es, rest);
                                    assert(es.len() > 1);
                                    lemma_sub_entries_wf(es);
                                    assert(starts_members(
                                        s@.skip(j5 as int + 1),
                                        es.drop_first(),
                                        rest,
                                    ));
                                    assert(entries_model(older) == es.drop_first());
                                    let di = dup->Some_0 as int;
                                    lemma_entries_model(older);
                                    assert(entries_model(older)[di].0 == key.0@);
                                    assert(es.drop_first()[di].0 == es[di + 1].0);
                                    assert(es[0].0 == es[di + 1].0);
                                    assert(false);
                                }
                            }
                        }
                        Ok((entries, j6))
                    },
                    None => {
                        entries.insert(0, (key.0, val.0));
                        proof {
                            assert(entries@.drop_first() =~= older);
                            assert(entries_model(entries@) == seq![
                                (entries@[0].0@, value_model(entries@[0].1)),
                            ] + entries_model(older));
                            lemma_entries_model(entries@);
                            lemma_entries_model(older);
                            assert forall|q2: int, q3: int|
                                0 <= q2 < q3 < entries_model(entries@).len() implies entries_model(
                                entries@,
                            )[q2].0 != entries_model(entries@)[q3].0 by {
                                if q2 == 0 {
                                    assert(entries_model(entries@)[q3].0 == entries_model(
                                        older,
                                    )[q3 - 1].0);
                                    assert(older[q3 - 1].0@ != key.0@);
                                } else {
                                    assert(entries_model(entries@)[q2].0 == entries_model(
                                        older,
                                    )[q2 - 1].0);
                                    assert(entries_model(entries@)[q3].0 == entries_model(
                                        older,
                                    )[q3 - 1].0);
                                    assert(crate::model::unique_keys(entries_model(older)));
                                }
                            }
                            assert(crate::model::wf_entries(entries_model(entries@))) by {
                                assert forall|q2: int| 0 <= q2 < entries_model(entries@).len()
                                    implies crate::model::wf_model(
                                    (#[trigger] entries_model(entries@)[q2]).1,
                                ) by {
                                    if q2 > 0 {
                                        assert(entries_model(entries@)[q2] == entries_model(
                                            older,
                                        )[q2 - 1]);
                                        assert(crate::model::wf_entries(entries_model(older)));
                                    }
                                }
                            }
                            assert forall|es: Seq<(Seq<char>, ValueModel)>, rest: Seq<char>|
                                #[trigger] starts_members(s@.skip(i as int), es, rest) && es.len()
                                >= 1 && crate::model::wf_entries(es) implies (entries_model(
                                entries@,
                            ) == es && j6 == i + enc_entries(es).len() + 1) by {
                                lemma_members_split(s@, i as int, es, rest);
                                assert(es.len() > 1);
                                lemma_sub_entries_wf(es);
                                assert(starts_members(
                                    s@.skip(j5 as int + 1),
                                    es.drop_first(),
                                    rest,
                                ));
                                assert(entries_model(older) == es.drop_first());
                                assert(entries_model(entries@) =~= es);
                            }
                        }
                        Ok((entries, j6))
                    },
                }
            },
            Err(e) => {
                proof {
                    assert forall|es: Seq<(Seq<char>, ValueModel)>, rest: Seq<char>| !(#[trigger]
                    starts_members(s@.skip(i as int), es, rest) && es.len() >= 1
                        && crate::model::wf_entries(es)) by {
                        if starts_members(s@.skip(i as int), es, rest) && es.len() >= 1
                            && crate::model::wf_entries(es) {
                            lemma_members_split(s@, i as int, es, rest);
                            assert(es.len() > 1);
                            lemma_sub_entries_wf(es);
                            assert(starts_members(s@.skip(j5 as int + 1), es.drop_first(), rest));
                        }
                    }
                }
                Err(e)
            },
        }
    } else if c5 == '}' {
        let mut entries: Vec<(String, Value)> = Vec::new();
        entries.push((key.0, val.0));
        proof {
            assert(entries@.drop_first() =~= Seq::<(String, Value)>::empty());
            assert(entries_model(entries@) == seq![(entries@[0].0@, value_model(entries@[0].1))]
                + entries_model(Seq::<(String, Value)>::empty()));
            assert(entries_model(Seq::<(String, Value)>::empty()) =~= Seq::<
                (Seq<char>, ValueModel),
            >::empty());
            assert(crate::model::wf_entries(entries_model(entries@)));
            assert forall|es: Seq<(Seq<char>, ValueModel)>, rest: Seq<char>| #[trigger]
            starts_members(s@.skip(i as int), es, rest) && es.len() >= 1
                && crate::model::wf_entries(es) implies (entries_model(entries@) == es && j5 + 1
                == i + enc_entries(es).len() + 1) by {
                lemma_members_split(s@, i as int, es, rest);
                assert(es.len() == 1);
                assert(entries_model(entries@) =~= es);
            }
        }
        Ok((entries, j5 + 1))
    } else {
        proof {
            assert forall|es: Seq<(Seq<char>, ValueModel)>, rest: Seq<char>| !(#[trigger]
            starts_members(s@.skip(i as int), es, rest) && es.len() >= 1
                && crate::model::wf_entries(es)) by {
                if starts_members(s@.skip(i as int), es, rest) && es.len() >= 1
                    && crate::model::wf_entries(es) {
                    lemma_members_split(s@, i as int, es, rest);
                }
            }
        }
        Err(DecodeError { at: j5 })
    }
}

/// Dropping the first entry keeps an entry list well formed.
proof fn lemma_sub_entries_wf(es: Seq<(Seq<char>, ValueModel)>)
    requires
        crate::model::wf_entries(es),
        es.len() >= 1,
    ensures
        crate::model::wf_entries(es.drop_first()),
{
    let d = es.drop_first();
    assert forall|q2: int, q3: int| 0 <= q2 < q3 < d.len() implies d[q2].0 != d[q3].0 by {
        assert(d[q2] == es[q2 + 1]);
        assert(d[q3] == es[q3 + 1]);
        assert(es[q2 + 1].0 != es[q3 + 1].0);
    }
    assert forall|q2: int| 0 <= q2 < d.len() implies crate::model::wf_model(
        (#[trigger] d[q2]).1,
    ) by {
        assert(d[q2] == es[q2 + 1]);
        assert(crate::model::wf_model(es[q2 + 1].1));
    }
}

/// Parses a whole rendered document: brace, entries, brace.  On the
/// rendering of any well-formed entry list it succeeds and returns exactly
/// the document with those entries.
#[verifier::loop_isolation(false)]
#[verifier::rlimit(100)]
fn parse_obj(s: &Vec<char>, i: usize) -> (r: Result<(Json, usize), DecodeError>)
    requires
        i <= s@.len(),
    ensures
        r matches Ok(p) ==> i < p.1 <= s@.len() && p.0.inv(),
        forall|es: Seq<(Seq<char>, ValueModel)>, rest: Seq<char>|
            #[trigger] starts_obj(s@.skip(i as int), es, rest) && crate::model::wf_entries(es)
                ==> (r matches Ok(p) && p.0@ == es && p.1 == i + doc_text(es).len()),
    decreases s@.len() - i, 0int,
{
    if i >= s.len() || s[i] != '{' {
        proof {
            assert forall|es: Seq<(Seq<char>, ValueModel)>, rest: Seq<char>| !(#[trigger]
            starts_obj(s@.skip(i as int), es, rest) && crate::model::wf_entries(es)) by {
                if starts_obj(s@.skip(i as int), es, rest) {
                    assert(s@.skip(i as int).len() == s@.len() - i);
                    assert(doc_text(es).len() >= 2);
                    assert(i < s@.len());
                    assert(s@.skip(i as int)[0] == s@[i as int]);
                    assert(s@.skip(i as int)[0] == doc_text(es)[0]);
                }
            }
        }
        return Err(DecodeError { at: i });
    }
    let q = skip_ws(s, i + 1);
    if q < s.len() && s[q] == '}' {
        let d = Json::new();
        proof {
            assert forall|es: Seq<(Seq<char>, ValueModel)>, rest: Seq<char>| #[trigger] starts_obj(
                s@.skip(i as int),
                es,
                rest,
            ) && crate::model::wf_entries(es) implies (es =~= d@ && q + 1 == i + doc_text(
                es,
            ).len()) by {
                lemma_obj_body(s@, i as int, es, rest, q as int);
                if es.len() > 0 {
                    assert(s@[q as int] != '}');
                    assert(false);
                }
                assert(enc_entries(es) =~= Seq::<char>::empty());
            }
        }
        Ok((d, q + 1))
    } else {
        match parse_members(s, q) {
            Ok((entries, j2)) => {
                let d = Json { entries };
                proof {
                    assert(d@ == entries_model(d.entries@));
                    assert forall|es: Seq<(Seq<char>, ValueModel)>, rest: Seq<char>| #[trigger]
                    starts_obj(s@.skip(i as int), es, rest) && crate::model::wf_entries(es)
                        implies (d@ == es && j2 == i + doc_text(es).len()) by {
                        lemma_obj_body(s@, i as int, es, rest, q as int);
                        if es.len() == 0 {
                            assert(false);
                        }
                        assert(starts_members(s@.skip(q as int), es, rest));
                    }
                }
                Ok((d, j2))
            },
            Err(e) => {
                proof {
                    assert forall|es: Seq<(Seq<char>, ValueModel)>, rest: Seq<char>| !(#[trigger]
                    starts_obj(s@.skip(i as int), es, rest) && crate::model::wf_entries(es)) by {
                        if starts_obj(s@.skip(i as int), es, rest) && crate::model::wf_entries(
                            es,
                        ) {
                            lemma_obj_body(s@, i as int, es, rest, q as int);
                            if es.len() == 0 {
                                assert(false);
                            }
                            assert(starts_members(s@.skip(q as int), es, rest));
                        }
                    }
                }
                Err(e)
            },
        }
    }
}

/// Parses a wire string into a document.  On the canonical rendering of any
/// well-formed entry list — in particular on anything [`encode`] produced —
/// it succeeds and restores exactly the document that was rendered; text
/// that does not hold a single document fails.
pub fn decode(text: &str) -> (r: Result<Json, DecodeError>)
    ensures
        r matches Ok(d) ==> d.inv(),
        forall|es: Seq<(Seq<char>, ValueModel)>|
            text@ == doc_text(es) && crate::model::wf_entries(es) ==> (r matches Ok(d) && d@
                == es),
{
    let chars = str_to_chars(text);
    let j0 = skip_ws(&chars, 0);
    proof {
        assert forall|es: Seq<(Seq<char>, ValueModel)>|
            text@ == doc_text(es) && crate::model::wf_entries(es) implies (j0 == 0 && starts_obj(
            chars@.skip(0),
            es,
            Seq::<char>::empty(),
        )) by {
            assert(chars@.skip(0) =~= doc_text(es) + Seq::<char>::empty());
            assert(('{' as u32) == 123 && (' ' as u32) == 32 && ('\t' as u32) == 9 && ('\n' as u32)
                == 10 && ('\r' as u32) == 13);
            assert(chars@[0] == doc_text(es)[0]);
            if j0 > 0 {
                assert(is_ws(chars@[0]));
            }
        }
    }
    let parsed = match parse_obj(&chars, j0) {
        Ok(p) => p,
        Err(e) => {
            return Err(e);
        },
    };
    let j2 = skip_ws(&chars, parsed.1);
    if j2 < chars.len() {
        proof {
            assert forall|es: Seq<(Seq<char>, ValueModel)>| !(text@ == doc_text(es)
                && crate::model::wf_entries(es)) by {
                if text@ == doc_text(es) && crate::model::wf_entries(es) {
                    assert(starts_obj(chars@.skip(0), es, Seq::<char>::empty()));
                    assert(parsed.1 == doc_text(es).len());
                }
            }
        }
        return Err(DecodeError { at: j2 });
    }
    Ok(parsed.0)
}

/// Relies on std's `char::from_u32`: it returns the character with the given
/// code point, and `None` exactly for surrogates and values beyond the
/// largest code point.
#[verifier::external_body]
fn char_from_code(code: u32) -> (r: Option<char>)
    ensures
        r matches Some(c) ==> c as u32 == code,
        (code < 0xD800 || (0xE000 <= code && code < 0x110000)) <==> r is Some,
{
    char::from_u32(code)
}

/// Renders a document as its canonical wire string.
pub fn encode(d: &Json) -> (r: String)
    ensures
        r@ == doc_text(d@),
{
    let mut out: Vec<char> = Vec::new();
    push_doc(&mut out, d);
    string_from_chars(&out)
}

/// Renders one value as its canonical wire string.
pub fn value_text(v: &Value) -> (r: String)
    ensures
        r@ == enc_value(v@),
{
    let mut out: Vec<char> = Vec::new();
    push_value(&mut out, v);
    string_from_chars(&out)
}

} // verus!
