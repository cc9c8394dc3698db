use vstd::prelude::*;
use crate::engine::{
    closed_level, formatted, initial_state, is_closer, is_layout_space, is_opener, line_break,
    next_state,
    owed_break, run, step_out, FormatState, Mode, Pending,
};
use crate::indentation::repeat_unit;

verus! {

/// Every byte of the indentation unit is layout whitespace, which the
/// machine drops in structural text.
pub open spec fn is_blank_unit(unit: Seq<u8>) -> bool {
    forall|i: int| 0 <= i < unit.len() ==> is_layout_space(#[trigger] unit[i])
}

/// Running over `a + b` is running over `a`, then over `b` from where `a` left off.
pub proof fn lemma_run_concat(s: FormatState, a: Seq<u8>, b: Seq<u8>, unit: Seq<u8>)
    ensures
        run(s, a + b, unit) == ({
            let p = run(s, a, unit);
            let q = run(p.0, b, unit);
            (q.0, p.1 + q.1)
        }),
    decreases b.len(),
{
    if b.len() == 0 {
        assert(a + b =~= a);
        assert(run(s, a, unit).1 + seq![] =~= run(s, a, unit).1);
    } else {
        assert((a + b).drop_last() =~= a + b.drop_last());
        assert((a + b).last() == b.last());
        lemma_run_concat(s, a, b.drop_last(), unit);
        let p = run(s, a, unit);
        let q = run(p.0, b.drop_last(), unit);
        assert(p.1 + q.1 + step_out(q.0, b.last(), unit) =~= p.1 + (q.1 + step_out(
            q.0,
            b.last(),
            unit,
        )));
    }
}

/// Running over a single byte is one step.
pub proof fn lemma_run_one(s: FormatState, b: u8, unit: Seq<u8>)
    ensures
        run(s, seq![b], unit) == (next_state(s, b), step_out(s, b, unit)),
{
    let e = seq![b].drop_last();
    assert(e =~= Seq::<u8>::empty());
    assert(run(s, e, unit) == (s, Seq::<u8>::empty()));
    assert(seq![b].last() == b);
    assert(Seq::<u8>::empty() + step_out(s, b, unit) =~= step_out(s, b, unit));
}

/// In structural text, layout whitespace is dropped and changes nothing.
pub proof fn lemma_run_blank(s: FormatState, x: Seq<u8>, unit: Seq<u8>)
    requires
        s.mode == Mode::Normal,
        is_blank_unit(x),
    ensures
        run(s, x, unit) == (s, Seq::<u8>::empty()),
    decreases x.len(),
{
    if x.len() > 0 {
        assert(is_blank_unit(x.drop_last()));
        lemma_run_blank(s, x.drop_last(), unit);
        assert(is_layout_space(x[x.len() - 1]));
        assert(Seq::<u8>::empty() + Seq::<u8>::empty() =~= Seq::<u8>::empty());
    }
}

proof fn lemma_repeat_blank(unit: Seq<u8>, n: nat)
    requires
        is_blank_unit(unit),
    ensures
        is_blank_unit(repeat_unit(unit, n)),
    decreases n,
{
    if n > 0 {
        lemma_repeat_blank(unit, (n - 1) as nat);
        let r = repeat_unit(unit, (n - 1) as nat);
        assert forall|i: int| 0 <= i < (r + unit).len() implies is_layout_space(
            #[trigger] (r + unit)[i],
        ) by {
            if i < r.len() {
                assert((r + unit)[i] == r[i]);
            } else {
                assert((r + unit)[i] == unit[i - r.len()]);
            }
        }
    }
}

/// Whatever one step writes, fed back from the same state, is written
/// again unchanged and leads to the same next state.
pub proof fn lemma_step_fixpoint(s: FormatState, b: u8, unit: Seq<u8>)
    requires
        is_blank_unit(unit),
    ensures
        run(s, step_out(s, b, unit), unit) == (next_state(s, b), step_out(s, b, unit)),
{
    let out = step_out(s, b, unit);
    lemma_run_one(s, b, unit);
    if s.mode == Mode::Normal && !is_layout_space(b) {
        // out == brk + tail, where brk is dropped and tail replays the step
        let lvl = if is_closer(b) { closed_level(s.indent_level) } else { s.indent_level };
        let brk = if is_closer(b) {
            if s.pending == Pending::Opener { Seq::<u8>::empty() } else { line_break(unit, lvl) }
        } else {
            owed_break(s, unit)
        };
        let tail = if b == 58u8 && !is_closer(b) { seq![b, 32u8] } else { seq![b] };
        assert(out =~= brk + tail);
        lemma_repeat_blank(unit, lvl as nat);
        assert(is_blank_unit(brk)) by {
            if brk.len() > 0 {
                assert(brk =~= seq![10u8] + repeat_unit(unit, lvl as nat));
                let r = repeat_unit(unit, lvl as nat);
                assert forall|i: int| 0 <= i < brk.len() implies is_layout_space(
                    #[trigger] brk[i],
                ) by {
                    if i > 0 {
                        assert(brk[i] == r[i - 1]);
                    }
                }
            }
        }
        lemma_run_blank(s, brk, unit);
        lemma_run_concat(s, brk, tail, unit);
        if b == 58u8 {
            assert(tail =~= seq![b] + seq![32u8]);
            lemma_run_concat(s, seq![b], seq![32u8], unit);
            let s1 = next_state(s, b);
            lemma_run_one(s1, 32u8, unit);
            assert(step_out(s, b, unit) =~= brk + seq![b, 32u8]);
            assert(run(s, seq![b], unit).1 + run(s1, seq![32u8], unit).1 =~= out);
            assert(run(s, tail, unit) == (s1, out));
            assert(Seq::<u8>::empty() + out =~= out);
        } else {
            assert(run(s, tail, unit).0 == next_state(s, b));
            assert(run(s, tail, unit).1 =~= out);
            assert(Seq::<u8>::empty() + out =~= out);
        }
    } else if s.mode == Mode::Normal {
        assert(out =~= Seq::<u8>::empty());
    } else {
        assert(out =~= seq![b]);
    }
}

/// Formatting what the machine wrote, from the same state, writes it again.
pub proof fn lemma_run_idempotent(s: FormatState, x: Seq<u8>, unit: Seq<u8>)
    requires
        is_blank_unit(unit),
    ensures
        run(s, run(s, x, unit).1, unit) == run(s, x, unit),
    decreases x.len(),
{
    if x.len() > 0 {
        let p = run(s, x.drop_last(), unit);
        lemma_run_idempotent(s, x.drop_last(), unit);
        lemma_run_concat(s, p.1, step_out(p.0, x.last(), unit), unit);
        lemma_step_fixpoint(p.0, x.last(), unit);
    }
}

/// Formatting is idempotent: formatting formatted text changes nothing,
/// provided the indentation unit is made of layout whitespace only.
pub proof fn lemma_format_idempotent(x: Seq<u8>, unit: Seq<u8>)
    requires
        is_blank_unit(unit),
    ensures
        formatted(formatted(x, unit), unit) == formatted(x, unit),
{
    lemma_run_idempotent(initial_state(), x, unit);
}

/// Inside a string literal, `body` ends on an unescaped backslash.
pub open spec fn pending_escape(body: Seq<u8>) -> bool
    decreases body.len(),
{
    body.len() > 0 && body.last() == 92u8 && !pending_escape(body.drop_last())
}

/// `body` can stand between the quotes of a string literal: each quote in it
/// is escaped.
pub open spec fn is_string_body(body: Seq<u8>) -> bool {
    forall|k: int| 0 <= k < body.len() && #[trigger] body[k] == 34u8 ==> pending_escape(
        body.subrange(0, k),
    )
}

proof fn lemma_string_body(s: FormatState, body: Seq<u8>, unit: Seq<u8>)
    requires
        s.mode == Mode::InString,
        !s.escaped,
        is_string_body(body),
    ensures
        run(s, body, unit) == (FormatState { escaped: pending_escape(body), ..s }, body),
    decreases body.len(),
{
    if body.len() == 0 {
        assert(FormatState { escaped: false, ..s } == s);
    } else {
        let v = body.drop_last();
        let b = body.last();
        assert forall|k: int| 0 <= k < v.len() && #[trigger] v[k] == 34u8 implies pending_escape(
            v.subrange(0, k),
        ) by {
            assert(body[k] == 34u8);
            assert(v.subrange(0, k) =~= body.subrange(0, k));
        }
        lemma_string_body(s, v, unit);
        assert(body[body.len() - 1] == b);
        assert(body.subrange(0, body.len() - 1) =~= v);
        assert(v + seq![b] =~= body);
    }
}

/// A string literal is written exactly as it stands: the bytes between its
/// quotes, escaped quotes and backslashes included, are not touched.
pub proof fn lemma_string_span(s: FormatState, body: Seq<u8>, unit: Seq<u8>)
    requires
        s.mode == Mode::Normal,
        is_string_body(body),
        !pending_escape(body),
    ensures
        run(s, seq![34u8] + body + seq![34u8], unit) == (
            FormatState { escaped: false, pending: Pending::Nothing, ..s },
            owed_break(s, unit) + seq![34u8] + body + seq![34u8],
        ),
{
    let q = seq![34u8];
    lemma_run_one(s, 34u8, unit);
    let s1 = next_state(s, 34u8);
    lemma_string_body(s1, body, unit);
    lemma_run_concat(s, q, body, unit);
    let s2 = FormatState { escaped: false, ..s1 };
    assert(s2 == s1);
    lemma_run_one(s1, 34u8, unit);
    lemma_run_concat(s, q + body, q, unit);
}

proof fn lemma_comment_text(s: FormatState, text: Seq<u8>, unit: Seq<u8>)
    requires
        s.mode == Mode::InComment,
        forall|i: int| 0 <= i < text.len() ==> #[trigger] text[i] != 10u8,
    ensures
        run(s, text, unit) == (s, text),
    decreases text.len(),
{
    if text.len() > 0 {
        let v = text.drop_last();
        assert forall|i: int| 0 <= i < v.len() implies #[trigger] v[i] != 10u8 by {
            assert(v[i] == text[i]);
        }
        lemma_comment_text(s, v, unit);
        assert(text[text.len() - 1] == text.last());
        assert(v + seq![text.last()] =~= text);
    }
}

/// A comment, from `#` through the newline that ends its line, is written
/// exactly as it stands.
pub proof fn lemma_comment_line(s: FormatState, text: Seq<u8>, unit: Seq<u8>)
    requires
        s.mode == Mode::Normal,
        forall|i: int| 0 <= i < text.len() ==> #[trigger] text[i] != 10u8,
    ensures
        run(s, seq![35u8] + text + seq![10u8], unit) == (
            FormatState { pending: Pending::Nothing, ..s },
            owed_break(s, unit) + seq![35u8] + text + seq![10u8],
        ),
{
    let h = seq![35u8];
    lemma_run_one(s, 35u8, unit);
    let s1 = next_state(s, 35u8);
    lemma_comment_text(s1, text, unit);
    lemma_run_concat(s, h, text, unit);
    lemma_run_one(s1, 10u8, unit);
    lemma_run_concat(s, h + text, seq![10u8], unit);
}

/// The nesting depth after reading `x`: the `[` and `{` read in structural
/// text, less the `]` and `}` read there, never below zero.
pub open spec fn bracket_depth(x: Seq<u8>, unit: Seq<u8>) -> nat
    decreases x.len(),
{
    if x.len() == 0 {
        0
    } else {
        let d = bracket_depth(x.drop_last(), unit);
        let b = x.last();
        if run(initial_state(), x.drop_last(), unit).0.mode != Mode::Normal {
            d
        } else if is_opener(b) {
            d + 1
        } else if is_closer(b) {
            if d == 0 {
                0
            } else {
                (d - 1) as nat
            }
        } else {
            d
        }
    }
}

/// Byte `b` in state `s` is preceded by a synthetic line break.
pub open spec fn writes_break(s: FormatState, b: u8) -> bool {
    &&& s.mode == Mode::Normal
    &&& !is_layout_space(b)
    &&& if is_closer(b) {
        s.pending != Pending::Opener
    } else {
        s.pending != Pending::Nothing
    }
}

/// How byte `b` itself is written in structural text.
pub open spec fn echo_of(b: u8) -> Seq<u8> {
    if b == 58u8 {
        seq![b, 32u8]
    } else {
        seq![b]
    }
}

proof fn lemma_level_is_depth(x: Seq<u8>, unit: Seq<u8>)
    requires
        x.len() < usize::MAX,
    ensures
        run(initial_state(), x, unit).0.indent_level == bracket_depth(x, unit),
        bracket_depth(x, unit) <= x.len(),
    decreases x.len(),
{
    if x.len() > 0 {
        lemma_level_is_depth(x.drop_last(), unit);
    }
}

/// Every synthetic line break is indented to the nesting depth of what has
/// been read, the byte after it counted when it is a closer; no other
/// layout is written.
pub proof fn lemma_break_depth(x: Seq<u8>, b: u8, unit: Seq<u8>)
    requires
        x.len() + 1 < usize::MAX,
    ensures
        ({
            let s = run(initial_state(), x, unit).0;
            let depth = if is_closer(b) {
                bracket_depth(x.push(b), unit)
            } else {
                bracket_depth(x, unit)
            };
            &&& writes_break(s, b) ==> step_out(s, b, unit) == line_break(unit, depth as usize)
                + echo_of(b)
            &&& !writes_break(s, b) ==> step_out(s, b, unit) == if s.mode != Mode::Normal {
                seq![b]
            } else if is_layout_space(b) {
                Seq::<u8>::empty()
            } else {
                echo_of(b)
            }
        }),
{
    lemma_level_is_depth(x, unit);
    lemma_level_is_depth(x.push(b), unit);
    assert(x.push(b).drop_last() =~= x);
    assert(x.push(b).last() == b);
    let s = run(initial_state(), x, unit).0;
    if s.mode == Mode::Normal && !is_layout_space(b) {
        assert(Seq::<u8>::empty() + echo_of(b) =~= echo_of(b));
        if is_closer(b) {
            assert(seq![b] == echo_of(b));
        }
    }
}

} // verus!
