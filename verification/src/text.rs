//! Message texts: filling the `{}` placeholders of a language-profile entry and
//! writing counts in decimal.
use vstd::prelude::*;
use vstd::string::StringSliceAdditionalSpecFns;
use vstd::utf8::*;
use crate::utf8_text::{
    extend_from_range, lemma_after_ascii_is_boundary, lemma_ascii_is_boundary,
    lemma_subrange_valid, string_from_utf8,
};

verus! {

broadcast use vstd::utf8::group_utf8_lib;

/// `t` with every `{}` replaced by `v`, scanning left to right (as `str::replace`
/// does with the pattern `"{}"`).
pub open spec fn fill_placeholders(t: Seq<u8>, v: Seq<u8>) -> Seq<u8>
    decreases t.len(),
{
    if t.len() == 0 {
        Seq::empty()
    } else if t.len() >= 2 && t[0] == 0x7Bu8 && t[1] == 0x7Du8 {
        v + fill_placeholders(t.subrange(2, t.len() as int), v)
    } else {
        seq![t[0]] + fill_placeholders(t.subrange(1, t.len() as int), v)
    }
}

/// The decimal digits of `n`, most significant first, without leading zeros.
pub open spec fn decimal(n: nat) -> Seq<u8>
    decreases n,
{
    if n < 10 {
        seq![(48 + n) as u8]
    } else {
        decimal(n / 10).push((48 + n % 10) as u8)
    }
}

/// Every byte is ASCII.
pub open spec fn all_ascii(b: Seq<u8>) -> bool {
    forall|i: int| 0 <= i < b.len() ==> #[trigger] b[i] < 0x80
}

/// ASCII bytes are valid UTF-8.
pub proof fn lemma_ascii_valid(b: Seq<u8>)
    requires
        all_ascii(b),
    ensures
        valid_utf8(b),
    decreases b.len(),
{
    if b.len() > 0 {
        let rest = b.subrange(1, b.len() as int);
        assert(all_ascii(rest)) by {
            assert forall|i: int| 0 <= i < rest.len() implies #[trigger] rest[i] < 0x80 by {
                assert(rest[i] == b[i + 1]);
            }
        }
        lemma_ascii_valid(rest);
        assert(b[0] < 0x80);
        assert(valid_utf8(seq![b[0]] + rest)) by {
            let one = seq![b[0]];
            assert(valid_first_scalar(one));
            assert(pop_first_scalar(one) =~= Seq::<u8>::empty());
            assert(valid_utf8(Seq::<u8>::empty()));
            assert(valid_utf8(one));
            valid_utf8_concat(one, rest);
        }
        assert(seq![b[0]] + rest =~= b);
    }
}

proof fn lemma_decimal_ascii(n: nat)
    ensures
        all_ascii(decimal(n)),
        decimal(n).len() >= 1,
    decreases n,
{
    if n >= 10 {
        lemma_decimal_ascii(n / 10);
    }
}

fn push_decimal(out: &mut Vec<u8>, n: usize)
    ensures
        final(out)@ == old(out)@ + decimal(n as nat),
    decreases n,
{
    if n >= 10 {
        push_decimal(out, n / 10);
    }
    let d: u8 = (n % 10) as u8;
    out.push(48 + d);
}

/// `n` written in decimal, as `usize::to_string` writes it.
pub fn decimal_string(n: usize) -> (s: String)
    ensures
        s@ == decode_utf8(decimal(n as nat)),
{
    let mut out: Vec<u8> = Vec::new();
    push_decimal(&mut out, n);
    proof {
        assert(out@ =~= decimal(n as nat));
        lemma_decimal_ascii(n as nat);
        lemma_ascii_valid(out@);
    }
    string_from_utf8(out)
}

proof fn lemma_fill_step(t: Seq<u8>, v: Seq<u8>, i: int)
    requires
        0 <= i < t.len(),
    ensures
        !(i + 1 < t.len() && t[i] == 0x7Bu8 && t[i + 1] == 0x7Du8) ==> fill_placeholders(
            t.subrange(i, t.len() as int),
            v,
        ) == seq![t[i]] + fill_placeholders(t.subrange(i + 1, t.len() as int), v),
        (i + 1 < t.len() && t[i] == 0x7Bu8 && t[i + 1] == 0x7Du8) ==> fill_placeholders(
            t.subrange(i, t.len() as int),
            v,
        ) == v + fill_placeholders(t.subrange(i + 2, t.len() as int), v),
{
    let s = t.subrange(i, t.len() as int);
    assert(s.subrange(1, s.len() as int) =~= t.subrange(i + 1, t.len() as int));
    if s.len() >= 2 {
        assert(s.subrange(2, s.len() as int) =~= t.subrange(i + 2, t.len() as int));
    }
}

/// `template` with every `{}` replaced by `value` (`str::replace(template, "{}", value)`).
pub fn fill_placeholder(template: &str, value: &str) -> (s: String)
    ensures
        s@ == decode_utf8(fill_placeholders(template.spec_bytes(), value.spec_bytes())),
{
    let t = template.as_bytes();
    let v = value.as_bytes();
    let ghost tb = t@;
    let ghost vb = v@;
    let n = t.len();
    let mut out: Vec<u8> = Vec::new();
    let mut last: usize = 0;
    let mut i: usize = 0;
    proof {
        is_char_boundary_start_end_of_seq(tb);
        assert(tb.subrange(0, n as int) =~= tb);
        assert(out@ + tb.subrange(0, 0) =~= Seq::<u8>::empty());
    }
    while i < n
        invariant
            n == tb.len(),
            t@ == tb,
            v@ == vb,
            valid_utf8(tb),
            valid_utf8(vb),
            0 <= last <= i <= n,
            is_char_boundary(tb, last as int),
            valid_utf8(out@),
            out@ + tb.subrange(last as int, i as int) + fill_placeholders(tb.subrange(i as int, n as int), vb)
                == fill_placeholders(tb, vb),
        decreases n - i,
    {
        proof {
            lemma_fill_step(tb, vb, i as int);
        }
        if i + 1 < n && t[i] == 0x7B && t[i + 1] == 0x7D {
            proof {
                lemma_ascii_is_boundary(tb, i as int);
                lemma_subrange_valid(tb, last as int, i as int);
                lemma_after_ascii_is_boundary(tb, i + 1);
            }
            let ghost before = out@;
            extend_from_range(&mut out, t, last, i);
            extend_from_range(&mut out, v, 0, v.len());
            proof {
                assert(vb.subrange(0, vb.len() as int) =~= vb);
                valid_utf8_concat(before, tb.subrange(last as int, i as int));
                valid_utf8_concat(before + tb.subrange(last as int, i as int), vb);
                assert(tb.subrange(i + 2, i + 2) =~= Seq::<u8>::empty());
                assert(out@ + tb.subrange(i + 2, i + 2) =~= out@);
            }
            i = i + 2;
            last = i;
        } else {
            proof {
                assert(tb.subrange(last as int, i as int) + seq![tb[i as int]] =~= tb.subrange(
                    last as int,
                    i + 1,
                ));
            }
            i = i + 1;
        }
    }
    proof {
        is_char_boundary_start_end_of_seq(tb);
        lemma_subrange_valid(tb, last as int, n as int);
    }
    let ghost before = out@;
    extend_from_range(&mut out, t, last, n);
    proof {
        valid_utf8_concat(before, tb.subrange(last as int, n as int));
        assert(tb.subrange(n as int, n as int) =~= Seq::<u8>::empty());
        assert(fill_placeholders(Seq::<u8>::empty(), vb) =~= Seq::<u8>::empty());
        assert(out@ =~= fill_placeholders(tb, vb));
    }
    string_from_utf8(out)
}

/// `template` with its placeholders replaced by `n` in decimal
/// (`template.replace("{}", &n.to_string())`).
pub fn fill_count(template: &str, n: usize) -> (s: String)
    ensures
        s@ == decode_utf8(fill_placeholders(template.spec_bytes(), decimal(n as nat))),
{
    let count = decimal_string(n);
    proof {
        lemma_decimal_ascii(n as nat);
        lemma_ascii_valid(decimal(n as nat));
    }
    let cs = count.as_str();
    proof {
        assert(cs.spec_bytes() =~= decimal(n as nat));
    }
    fill_placeholder(template, cs)
}

/// `t` holds no `{}`.
pub open spec fn no_placeholder(t: Seq<u8>) -> bool {
    forall|i: int| 0 <= i < t.len() - 1 ==> !(#[trigger] t[i] == 0x7Bu8 && t[i + 1] == 0x7Du8)
}

/// Law: a text without placeholders is left as it is.
pub proof fn law_fill_without_placeholder(t: Seq<u8>, v: Seq<u8>)
    requires
        no_placeholder(t),
    ensures
        fill_placeholders(t, v) == t,
    decreases t.len(),
{
    if t.len() > 0 {
        let rest = t.subrange(1, t.len() as int);
        assert(no_placeholder(rest)) by {
            assert forall|i: int| 0 <= i < rest.len() - 1 implies !(#[trigger] rest[i] == 0x7Bu8 && rest[i + 1] == 0x7Du8) by {
                assert(rest[i] == t[i + 1] && rest[i + 1] == t[i + 2]);
                if t[i + 1] == 0x7Bu8 {
                    assert(!(t[i + 1] == 0x7Bu8 && t[i + 2] == 0x7Du8));
                }
            }
        }
        law_fill_without_placeholder(rest, v);
        if t.len() >= 2 && t[0] == 0x7Bu8 {
            assert(!(t[0] == 0x7Bu8 && t[1] == 0x7Du8));
        }
        assert(seq![t[0]] + rest =~= t);
    }
}

/// Law: each placeholder of the template is replaced, so a template that is just
/// a placeholder becomes the value.
pub proof fn law_fill_bare_placeholder(v: Seq<u8>)
    ensures
        fill_placeholders(seq![0x7Bu8, 0x7Du8], v) == v,
{
    let t = seq![0x7Bu8, 0x7Du8];
    assert(t.subrange(2, 2) =~= Seq::<u8>::empty());
    assert(fill_placeholders(Seq::<u8>::empty(), v) == Seq::<u8>::empty());
    assert(v + Seq::<u8>::empty() =~= v);
}

/// The number that decimal digits (most significant first) stand for.
pub open spec fn digits_value(s: Seq<u8>) -> int
    decreases s.len(),
{
    if s.len() == 0 {
        0
    } else {
        digits_value(s.drop_last()) * 10 + (s.last() - 48)
    }
}

/// Law: `decimal(n)` is made of the digits `0` to `9`, starts with a non-zero
/// digit unless `n` is zero, and stands for `n`.
pub proof fn law_decimal_stands_for_the_number(n: nat)
    ensures
        decimal(n).len() > 0,
        forall|i: int| 0 <= i < decimal(n).len() ==> 48 <= #[trigger] decimal(n)[i] <= 57,
        n > 0 ==> decimal(n)[0] != 48,
        digits_value(decimal(n)) == n,
    decreases n,
{
    if n >= 10 {
        law_decimal_stands_for_the_number(n / 10);
        let d = decimal(n / 10);
        let e = decimal(n);
        assert(e == d.push((48 + n % 10) as u8));
        assert(e.drop_last() == d);
        assert forall|i: int| 0 <= i < e.len() implies 48 <= #[trigger] e[i] <= 57 by {
            if i < d.len() {
                assert(e[i] == d[i]);
            }
        }
        assert(e[0] == d[0]);
        assert(e.last() == (48 + n % 10) as u8);
        assert(digits_value(e) == digits_value(d) * 10 + (e.last() - 48));
        assert((n / 10) * 10 + n % 10 == n) by (nonlinear_arith);
    } else {
        let e = decimal(n);
        assert(e.drop_last() =~= Seq::<u8>::empty());
        assert(e.last() == (48 + n) as u8);
        assert(digits_value(e) == digits_value(e.drop_last()) * 10 + (e.last() - 48));
    }
}

/// Law: a text after its line breaks are removed holds no `\n`, and a text
/// without `\n` is left as it is.
pub proof fn law_line_breaks_are_removed(t: Seq<u8>)
    ensures
        !without_line_breaks(t).contains(0x0Au8),
        !t.contains(0x0Au8) ==> without_line_breaks(t) == t,
    decreases t.len(),
{
    if t.len() > 0 {
        let r1 = t.subrange(1, t.len() as int);
        law_line_breaks_are_removed(r1);
        if t.len() >= 2 {
            law_line_breaks_are_removed(t.subrange(2, t.len() as int));
        }
        if !t.contains(0x0Au8) {
            assert(!r1.contains(0x0Au8)) by {
                if r1.contains(0x0Au8) {
                    let k = choose|k: int| 0 <= k < r1.len() && r1[k] == 0x0Au8;
                    assert(t[k + 1] == 0x0Au8);
                }
            }
            assert(t[0] != 0x0Au8);
            if t.len() >= 2 {
                assert(t[1] != 0x0Au8);
            }
            assert(seq![t[0]] + r1 =~= t);
        }
        let w = without_line_breaks(t);
        if t[0] != 0x0Au8 && !(t.len() >= 2 && t[0] == 0x0Du8 && t[1] == 0x0Au8) {
            let rest = without_line_breaks(r1);
            assert(w == seq![t[0]] + rest);
            if w.contains(0x0Au8) {
                let k = choose|k: int| 0 <= k < w.len() && w[k] == 0x0Au8;
                if k > 0 {
                    assert(rest[k - 1] == 0x0Au8);
                    assert(rest.contains(0x0Au8));
                }
            }
        }
    }
}

/// `t` with its line breaks removed: each `\n`, and a `\r` just before one, is
/// dropped (what joining `str::lines` without a separator gives).
pub open spec fn without_line_breaks(t: Seq<u8>) -> Seq<u8>
    decreases t.len(),
{
    if t.len() == 0 {
        seq![]
    } else if t[0] == 0x0Au8 {
        without_line_breaks(t.subrange(1, t.len() as int))
    } else if t.len() >= 2 && t[0] == 0x0Du8 && t[1] == 0x0Au8 {
        without_line_breaks(t.subrange(2, t.len() as int))
    } else {
        seq![t[0]] + without_line_breaks(t.subrange(1, t.len() as int))
    }
}

/// The query to search for a selected text: its lines joined into one, since the
/// single-line search box cannot hold line breaks.
pub fn single_line(text: &str) -> (s: String)
    ensures
        s@ == decode_utf8(without_line_breaks(text.spec_bytes())),
{
    let t = text.as_bytes();
    let ghost tb = t@;
    let n = t.len();
    let mut out: Vec<u8> = Vec::new();
    let mut last: usize = 0;
    let mut i: usize = 0;
    proof {
        is_char_boundary_start_end_of_seq(tb);
        assert(tb.subrange(0, n as int) =~= tb);
        assert(out@ + tb.subrange(0, 0) =~= Seq::<u8>::empty());
    }
    while i < n
        invariant
            n == tb.len(),
            t@ == tb,
            valid_utf8(tb),
            last <= i <= n,
            is_char_boundary(tb, last as int),
            valid_utf8(out@),
            out@ + tb.subrange(last as int, i as int) + without_line_breaks(tb.subrange(i as int, n as int))
                == without_line_breaks(tb),
        decreases n - i,
    {
        let ghost rest = tb.subrange(i as int, n as int);
        proof {
            assert(rest.subrange(1, rest.len() as int) =~= tb.subrange(i + 1, n as int));
            if rest.len() >= 2 {
                assert(rest.subrange(2, rest.len() as int) =~= tb.subrange(i + 2, n as int));
            }
        }
        if t[i] == 0x0A || (i + 1 < n && t[i] == 0x0D && t[i + 1] == 0x0A) {
            let step: usize = if t[i] == 0x0A { 1 } else { 2 };
            proof {
                lemma_ascii_is_boundary(tb, i as int);
                lemma_subrange_valid(tb, last as int, i as int);
                lemma_after_ascii_is_boundary(tb, i + step - 1);
            }
            let ghost before = out@;
            extend_from_range(&mut out, t, last, i);
            proof {
                valid_utf8_concat(before, tb.subrange(last as int, i as int));
                assert(tb.subrange(i + step, i + step) =~= Seq::<u8>::empty());
                assert(out@ + tb.subrange(i + step, i + step) =~= out@);
            }
            i = i + step;
            last = i;
        } else {
            proof {
                assert(tb.subrange(last as int, i as int) + seq![tb[i as int]] =~= tb.subrange(last as int, i + 1));
            }
            i = i + 1;
        }
    }
    proof {
        is_char_boundary_start_end_of_seq(tb);
        lemma_subrange_valid(tb, last as int, n as int);
    }
    let ghost before = out@;
    extend_from_range(&mut out, t, last, n);
    proof {
        valid_utf8_concat(before, tb.subrange(last as int, n as int));
        assert(tb.subrange(n as int, n as int) =~= Seq::<u8>::empty());
        assert(without_line_breaks(Seq::<u8>::empty()) =~= Seq::<u8>::empty());
        assert(out@ =~= without_line_breaks(tb));
    }
    string_from_utf8(out)
}

} // verus!
