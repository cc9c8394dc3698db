use vstd::prelude::*;
use vstd::string::StringSliceAdditionalSpecFns;
use vstd::utf8::{
    decode_utf8, encode_scalar, encode_utf8, encode_utf8_valid_utf8,
    decode_utf8_encode_utf8, has_width_1_encoding, is_ascii_chars, is_ascii_chars_encode_utf8,
    valid_utf8, valid_utf8_concat,
};
use crate::engine::{
    format_nu_buffered, formatted, is_closer, is_layout_space, line_break, owed_break,
    run, step_out, FormatState, Mode, Pending,
};
use crate::indentation::{repeat_unit, Indentation};
use crate::laws::{is_blank_unit, lemma_format_idempotent, lemma_run_concat, lemma_run_one};

verus! {

/// The formatted form of a text: its UTF-8 bytes formatted, read back as text.
pub open spec fn formatted_text(x: Seq<char>, unit: Seq<u8>) -> Seq<char> {
    decode_utf8(formatted(encode_utf8(x), unit))
}

/// Relies on `String::from_utf8`: it succeeds exactly on valid UTF-8 and
/// then holds the text those bytes encode.
#[verifier::external_body]
fn string_from_utf8(bytes: Vec<u8>) -> (r: Option<String>)
    ensures
        r is Some <==> valid_utf8(bytes@),
        r matches Some(s) ==> s@ == decode_utf8(bytes@),
{
    String::from_utf8(bytes).ok()
}

/// Formats a text and returns the formatted text.
pub fn format_nu(nu: &str, indentation: Indentation) -> (r: String)
    ensures
        r@ == formatted_text(nu@, indentation.unit()),
{
    let mut out: Vec<u8> = Vec::new();
    format_nu_buffered(nu.as_bytes(), &mut out, indentation);
    proof {
        assert(out@ =~= formatted(nu.spec_bytes(), indentation.unit()));
        lemma_unit_valid(indentation);
        lemma_formatted_valid(nu@, indentation.unit());
    }
    match string_from_utf8(out) {
        Some(s) => s,
        // cannot happen: the bytes were shown to be valid UTF-8 above
        None => String::new(),
    }
}

proof fn lemma_unit_valid(indentation: Indentation)
    ensures
        valid_utf8(indentation.unit()),
{
    broadcast use encode_utf8_valid_utf8;

    lemma_ascii_valid(indentation.unit());
}

/// Bytes below 0x80 are valid UTF-8 on their own.
proof fn lemma_ascii_valid(x: Seq<u8>)
    ensures
        (forall|i: int| 0 <= i < x.len() ==> #[trigger] x[i] < 0x80u8) ==> valid_utf8(x),
{
    if forall|i: int| 0 <= i < x.len() ==> #[trigger] x[i] < 0x80u8 {
        let chars = Seq::new(x.len(), |i: int| x[i] as char);
        assert(is_ascii_chars(chars));
        is_ascii_chars_encode_utf8(chars);
        encode_utf8_valid_utf8(chars);
        assert(encode_utf8(chars) =~= x);
    }
}

proof fn lemma_repeat_valid(unit: Seq<u8>, n: nat)
    requires
        valid_utf8(unit),
    ensures
        valid_utf8(repeat_unit(unit, n)),
    decreases n,
{
    if n == 0 {
        lemma_ascii_valid(repeat_unit(unit, n));
    } else {
        lemma_repeat_valid(unit, (n - 1) as nat);
        valid_utf8_concat(repeat_unit(unit, (n - 1) as nat), unit);
    }
}

proof fn lemma_break_valid(unit: Seq<u8>, level: usize)
    requires
        valid_utf8(unit),
    ensures
        valid_utf8(line_break(unit, level)),
{
    lemma_ascii_valid(seq![10u8]);
    lemma_repeat_valid(unit, level as nat);
    valid_utf8_concat(seq![10u8], repeat_unit(unit, level as nat));
}

/// One step on a byte below 0x80 writes valid UTF-8.
proof fn lemma_step_valid(s: FormatState, b: u8, unit: Seq<u8>)
    requires
        valid_utf8(unit),
        b < 0x80u8,
    ensures
        valid_utf8(step_out(s, b, unit)),
{
    let lvl = if is_closer(b) { crate::engine::closed_level(s.indent_level) } else { s.indent_level };
    lemma_break_valid(unit, lvl);
    lemma_ascii_valid(seq![b]);
    lemma_ascii_valid(seq![b, 32u8]);
    lemma_ascii_valid(Seq::<u8>::empty());
    valid_utf8_concat(line_break(unit, lvl), seq![b]);
    valid_utf8_concat(line_break(unit, lvl), seq![b, 32u8]);
    valid_utf8_concat(Seq::<u8>::empty(), seq![b]);
    valid_utf8_concat(Seq::<u8>::empty(), seq![b, 32u8]);
    assert(Seq::<u8>::empty() + seq![b] =~= seq![b]);
    assert(Seq::<u8>::empty() + seq![b, 32u8] =~= seq![b, 32u8]);
}

/// What precedes a run of bytes of 0x80 and above: the owed line break in
/// structural text, nothing elsewhere.
spec fn high_prefix(s: FormatState, unit: Seq<u8>) -> Seq<u8> {
    if s.mode == Mode::Normal {
        owed_break(s, unit)
    } else {
        seq![]
    }
}

/// Bytes of 0x80 and above are echoed, after the line break that is owed.
proof fn lemma_run_high(s: FormatState, w: Seq<u8>, unit: Seq<u8>)
    requires
        w.len() > 0,
        forall|i: int| 0 <= i < w.len() ==> #[trigger] w[i] >= 0x80u8,
    ensures
        run(s, w, unit).1 == high_prefix(s, unit) + w,
        run(s, w, unit).0.mode == s.mode,
        s.mode == Mode::Normal ==> run(s, w, unit).0.pending == Pending::Nothing,
    decreases w.len(),
{
    let b = w.last();
    assert(b == w[w.len() - 1]);
    if w.len() == 1 {
        lemma_run_concat(s, Seq::<u8>::empty(), w, unit);
        assert(Seq::<u8>::empty() + w =~= w);
        assert(w =~= seq![b]);
        lemma_run_one(s, b, unit);
    } else {
        let v = w.drop_last();
        assert forall|i: int| 0 <= i < v.len() implies #[trigger] v[i] >= 0x80u8 by {
            assert(v[i] == w[i]);
        }
        lemma_run_high(s, v, unit);
        assert(v.push(b) =~= w);
        assert(high_prefix(s, unit) + v + seq![b] =~= high_prefix(s, unit) + w);
    }
}

proof fn lemma_high_or(a: u8)
    by (bit_vector)
    ensures
        (0x80u8 | a) >= 0x80u8,
        (0xC0u8 | a) >= 0x80u8,
        (0xE0u8 | a) >= 0x80u8,
        (0xF0u8 | a) >= 0x80u8,
{
}

proof fn lemma_low_and(c: u32)
    by (bit_vector)
    requires
        c < 0x80u32,
    ensures
        ((c & 0x7Fu32) as u8) < 0x80u8,
{
}

/// The machine's output on the encoding of one character is valid UTF-8.
proof fn lemma_char_valid(s: FormatState, ch: char, unit: Seq<u8>)
    requires
        valid_utf8(unit),
    ensures
        valid_utf8(run(s, encode_scalar(ch as u32), unit).1),
{
    let c = ch as u32;
    let w = encode_scalar(c);
    encode_utf8_valid_utf8(seq![ch]);
    assert(seq![ch].drop_first() =~= Seq::<char>::empty());
    assert(seq![ch][0] == ch);
    assert(encode_utf8(Seq::<char>::empty()) =~= Seq::<u8>::empty());
    assert(encode_utf8(seq![ch]) =~= w + Seq::<u8>::empty());
    assert(w + Seq::<u8>::empty() =~= w);
    if has_width_1_encoding(c) {
        lemma_low_and(c);
        assert(w =~= seq![w[0]]);
        lemma_run_one(s, w[0], unit);
        lemma_step_valid(s, w[0], unit);
    } else {
        lemma_high_or(((c >> 6) & 0x1F) as u8);
        lemma_high_or(((c >> 12) & 0x0F) as u8);
        lemma_high_or(((c >> 18) & 0x7) as u8);
        lemma_high_or((c & 0x3F) as u8);
        lemma_high_or(((c >> 6) & 0x3F) as u8);
        lemma_high_or(((c >> 12) & 0x3F) as u8);
        assert(forall|i: int| 0 <= i < w.len() ==> #[trigger] w[i] >= 0x80u8);
        lemma_run_high(s, w, unit);
        if s.mode == Mode::Normal {
            if s.pending != Pending::Nothing {
                lemma_break_valid(unit, s.indent_level);
            } else {
                lemma_ascii_valid(Seq::<u8>::empty());
            }
        } else {
            lemma_ascii_valid(Seq::<u8>::empty());
        }
        valid_utf8_concat(high_prefix(s, unit), w);
    }
}

/// The machine's output on the encoding of any text is valid UTF-8.
proof fn lemma_run_encoded_valid(s: FormatState, x: Seq<char>, unit: Seq<u8>)
    requires
        valid_utf8(unit),
    ensures
        valid_utf8(run(s, encode_utf8(x), unit).1),
    decreases x.len(),
{
    if x.len() == 0 {
        lemma_ascii_valid(run(s, encode_utf8(x), unit).1);
    } else {
        let w = encode_scalar(x[0] as u32);
        let rest = encode_utf8(x.drop_first());
        lemma_run_concat(s, w, rest, unit);
        lemma_char_valid(s, x[0], unit);
        let p = run(s, w, unit);
        lemma_run_encoded_valid(p.0, x.drop_first(), unit);
        valid_utf8_concat(p.1, run(p.0, rest, unit).1);
    }
}

/// Formatting valid UTF-8 gives valid UTF-8.
pub proof fn lemma_formatted_valid(x: Seq<char>, unit: Seq<u8>)
    requires
        valid_utf8(unit),
    ensures
        valid_utf8(formatted(encode_utf8(x), unit)),
{
    lemma_run_encoded_valid(crate::engine::initial_state(), x, unit);
}

/// Formatting a text is idempotent, provided the indentation unit is made of
/// layout whitespace only.
pub proof fn lemma_format_text_idempotent(x: Seq<char>, unit: Seq<u8>)
    requires
        is_blank_unit(unit),
    ensures
        formatted_text(formatted_text(x, unit), unit) == formatted_text(x, unit),
{
    broadcast use encode_utf8_valid_utf8;

    let f = formatted(encode_utf8(x), unit);
    assert forall|i: int| 0 <= i < unit.len() implies #[trigger] unit[i] < 0x80u8 by {
        assert(is_layout_space(unit[i]));
    }
    lemma_ascii_valid(unit);
    lemma_formatted_valid(x, unit);
    decode_utf8_encode_utf8(f);
    lemma_format_idempotent(encode_utf8(x), unit);
}

} // verus!
