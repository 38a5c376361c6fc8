use vstd::prelude::*;
use vstd::string::*;

verus! {

/// `n` copies of `c`.
pub open spec fn repeat_char(c: char, n: nat) -> Seq<char> {
    Seq::new(n, |i: int| c)
}

/// `s` right-aligned in a field of `width` characters: spaces before it up to
/// the width; `s` itself when it is as wide already.
pub open spec fn right_aligned(s: Seq<char>, width: nat) -> Seq<char> {
    if s.len() >= width {
        s
    } else {
        repeat_char(' ', (width - s.len()) as nat) + s
    }
}

/// `s` left-aligned in a field of `width` characters: spaces after it up to
/// the width; `s` itself when it is as wide already.
pub open spec fn left_aligned(s: Seq<char>, width: nat) -> Seq<char> {
    if s.len() >= width {
        s
    } else {
        s + repeat_char(' ', (width - s.len()) as nat)
    }
}

/// Right-alignment keeps `s` at the end of a field at least `width` wide,
/// with nothing but spaces before it.
pub proof fn lemma_right_aligned_shape(s: Seq<char>, width: nat)
    ensures
        right_aligned(s, width).len() == if s.len() >= width {
            s.len()
        } else {
            width
        },
        right_aligned(s, width).subrange(
            right_aligned(s, width).len() - s.len(),
            right_aligned(s, width).len() as int,
        ) == s,
        forall|i: int|
            0 <= i < right_aligned(s, width).len() - s.len() ==> #[trigger] right_aligned(
                s,
                width,
            )[i] == ' ',
{
    let r = right_aligned(s, width);
    assert(r.subrange(r.len() - s.len(), r.len() as int) =~= s);
}

/// Left-alignment keeps `s` at the start of a field at least `width` wide,
/// with nothing but spaces after it.
pub proof fn lemma_left_aligned_shape(s: Seq<char>, width: nat)
    ensures
        left_aligned(s, width).len() == if s.len() >= width {
            s.len()
        } else {
            width
        },
        left_aligned(s, width).subrange(0, s.len() as int) == s,
        forall|i: int|
            s.len() <= i < left_aligned(s, width).len() ==> #[trigger] left_aligned(s, width)[i]
                == ' ',
{
    let r = left_aligned(s, width);
    assert(r.subrange(0, s.len() as int) =~= s);
}

/// A rule of width `w` is `w` characters, each `─`.
pub proof fn lemma_rule_shape(w: nat)
    ensures
        repeat_char('─', w).len() == w,
        forall|i: int| 0 <= i < w ==> #[trigger] repeat_char('─', w)[i] == '─',
{
}

/// Appends `n` copies of the one-character string `unit` to `out`.
fn push_repeated(out: &mut String, unit: &str, n: usize)
    requires
        unit@.len() == 1,
    ensures
        final(out)@ == old(out)@ + repeat_char(unit@[0], n as nat),
{
    for i in 0..n
        invariant
            unit@.len() == 1,
            out@ == old(out)@ + repeat_char(unit@[0], i as nat),
    {
        out.append(unit);
        assert(old(out)@ + repeat_char(unit@[0], (i + 1) as nat) =~= old(out)@ + repeat_char(
            unit@[0],
            i as nat,
        ) + unit@);
    }
}

/// Right-aligns `s` in a field of `width` characters, as `{:>width$}` does.
pub fn rpad(s: &str, width: usize) -> (r: String)
    ensures
        r@ == right_aligned(s@, width as nat),
{
    let len = s.unicode_len();
    let mut out = String::new();
    if len < width {
        proof {
            reveal_strlit(" ");
        }
        push_repeated(&mut out, " ", width - len);
    }
    out.append(s);
    assert(out@ =~= right_aligned(s@, width as nat));
    out
}

/// Left-aligns `s` in a field of `width` characters, as `{:<width$}` does.
pub fn lpad(s: &str, width: usize) -> (r: String)
    ensures
        r@ == left_aligned(s@, width as nat),
{
    let len = s.unicode_len();
    let mut out = String::from_str(s);
    if len < width {
        proof {
            reveal_strlit(" ");
        }
        push_repeated(&mut out, " ", width - len);
    }
    assert(out@ =~= left_aligned(s@, width as nat));
    out
}

/// A horizontal rule of `width` box-drawing characters `─`.
pub fn separator(width: usize) -> (r: String)
    ensures
        r@ == repeat_char('─', width as nat),
{
    let mut out = String::new();
    proof {
        reveal_strlit("─");
    }
    push_repeated(&mut out, "─", width);
    assert(out@ =~= repeat_char('─', width as nat));
    out
}

} // verus!
