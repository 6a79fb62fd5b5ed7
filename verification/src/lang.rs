use vstd::prelude::*;

use crate::Error;
use std::collections::VecDeque;

verus! {

/// Move the data pointer right (`>`).
pub const CMD_RIGHT: u32 = 62;

/// Move the data pointer left (`<`).
pub const CMD_LEFT: u32 = 60;

/// Increment the addressed cell (`+`).
pub const CMD_INC: u32 = 43;

/// Decrement the addressed cell (`-`).
pub const CMD_DEC: u32 = 45;

/// Read one input value into the addressed cell (`,`).
pub const CMD_READ: u32 = 44;

/// Write the addressed cell, truncated to a byte, to the output (`.`).
pub const CMD_WRITE: u32 = 46;

/// Enter a loop if the addressed cell is nonzero (`[`).
pub const CMD_OPEN: u32 = 91;

/// Close a loop (`]`).
pub const CMD_CLOSE: u32 = 93;

/// The sentinel instruction marking end-of-program.
pub const TERMINATOR: u32 = 0;

/// Whether `c` is one of the eight command codes.
pub open spec fn is_command(c: u32) -> bool {
    ||| c == CMD_RIGHT
    ||| c == CMD_LEFT
    ||| c == CMD_INC
    ||| c == CMD_DEC
    ||| c == CMD_READ
    ||| c == CMD_WRITE
    ||| c == CMD_OPEN
    ||| c == CMD_CLOSE
}

/// The command codes of `src`, in order, with every other byte discarded.
pub open spec fn spec_load(src: Seq<u8>) -> Seq<u32>
    decreases src.len(),
{
    if src.len() == 0 {
        Seq::empty()
    } else if is_command(src.last() as u32) {
        spec_load(src.drop_last()).push(src.last() as u32)
    } else {
        spec_load(src.drop_last())
    }
}

/// Every code that loading produces is one of the eight commands; in
/// particular none of them is the terminator.
pub proof fn lemma_spec_load_commands(src: Seq<u8>)
    ensures
        forall|i: int| 0 <= i < spec_load(src).len() ==> is_command(#[trigger] spec_load(src)[i]),
    decreases src.len(),
{
    if src.len() > 0 {
        lemma_spec_load_commands(src.drop_last());
        let prev = spec_load(src.drop_last());
        assert forall|i: int| 0 <= i < spec_load(src).len() implies is_command(
            #[trigger] spec_load(src)[i],
        ) by {
            if i < prev.len() {
                assert(spec_load(src)[i] == prev[i]);
            }
        }
    }
}

/// Turns raw program text into a validated instruction sequence: the eight
/// command characters are kept in order, everything else is discarded, and
/// the terminator is appended.
pub fn program_from_source(src: &[u8]) -> (p: Vec<u32>)
    ensures
        p@ == spec_load(src@).push(TERMINATOR),
{
    let mut p: Vec<u32> = Vec::new();
    let n: usize = src.len();
    let mut i: usize = 0;
    while i < n
        invariant
            i <= n,
            n == src@.len(),
            p@ == spec_load(src@.take(i as int)),
        decreases n - i,
    {
        let c: u32 = src[i] as u32;
        if c == CMD_RIGHT || c == CMD_LEFT || c == CMD_INC || c == CMD_DEC || c == CMD_READ
            || c == CMD_WRITE || c == CMD_OPEN || c == CMD_CLOSE {
            p.push(c);
        }
        proof {
            assert(src@.take(i + 1).drop_last() =~= src@.take(i as int));
            assert(src@.take(i + 1).last() == src@[i as int]);
        }
        i = i + 1;
    }
    proof {
        assert(src@.take(n as int) =~= src@);
    }
    p.push(TERMINATOR);
    p
}

/// ASCII whitespace, the bytes trimmed from an input field.
pub open spec fn is_space(b: u8) -> bool {
    b == 32 || (9 <= b && b <= 13)
}

/// An ASCII decimal digit.
pub open spec fn is_digit(b: u8) -> bool {
    48 <= b && b <= 57
}

/// `f` with its leading whitespace removed.
pub open spec fn trim_front(f: Seq<u8>) -> Seq<u8>
    decreases f.len(),
{
    if f.len() > 0 && is_space(f[0]) {
        trim_front(f.drop_first())
    } else {
        f
    }
}

/// `f` with its trailing whitespace removed.
pub open spec fn trim_back(f: Seq<u8>) -> Seq<u8>
    decreases f.len(),
{
    if f.len() > 0 && is_space(f.last()) {
        trim_back(f.drop_last())
    } else {
        f
    }
}

/// `f` with whitespace removed from both ends.
pub open spec fn spec_trim(f: Seq<u8>) -> Seq<u8> {
    trim_back(trim_front(f))
}

/// The value of a digit string read in the usual way, most significant
/// first.
pub open spec fn digits_val(d: Seq<u8>) -> int
    decreases d.len(),
{
    if d.len() == 0 {
        0
    } else {
        digits_val(d.drop_last()) * 10 + (d.last() - 48)
    }
}

/// Every byte of `d` is a decimal digit.
pub open spec fn all_digits(d: Seq<u8>) -> bool {
    forall|i: int| 0 <= i < d.len() ==> is_digit(#[trigger] d[i])
}

/// How one trimmed, nonempty field parses as an unsigned 32-bit integer: an
/// optional plus sign, then one or more digits, with a value that fits.
pub open spec fn spec_parse_field(t: Seq<u8>) -> Option<u32> {
    let d = if t.len() > 0 && t[0] == 43 {
        t.drop_first()
    } else {
        t
    };
    if d.len() > 0 && all_digits(d) && digits_val(d) <= u32::MAX {
        Some(digits_val(d) as u32)
    } else {
        None
    }
}

/// What one comma-separated field contributes to the input queue: nothing if
/// it trims to empty, its value if it parses, failure otherwise.
pub open spec fn field_values(f: Seq<u8>) -> Option<Seq<u32>> {
    let t = spec_trim(f);
    if t.len() == 0 {
        Some(Seq::empty())
    } else {
        match spec_parse_field(t) {
            Some(v) => Some(seq![v]),
            None => None,
        }
    }
}

/// Index of the first comma in `s` (the length if there is none).
pub open spec fn first_comma(s: Seq<u8>) -> int
    decreases s.len(),
{
    if s.len() == 0 {
        0
    } else if s[0] == 44 {
        0
    } else {
        1 + first_comma(s.drop_first())
    }
}

/// How a whole input text parses: split on commas, trim each field, discard
/// empty fields, and parse each remaining field; any failing field fails the
/// whole text.
pub open spec fn spec_parse_inputs(s: Seq<u8>) -> Option<Seq<u32>>
    decreases s.len(),
{
    let c = first_comma(s);
    if !(0 <= c < s.len()) {
        field_values(s)
    } else {
        match field_values(s.take(c)) {
            None => None,
            Some(xs) => match spec_parse_inputs(s.skip(c + 1)) {
                None => None,
                Some(ys) => Some(xs + ys),
            },
        }
    }
}

/// Prefixing already-parsed values onto the outcome of the remaining text.
pub open spec fn combine(prefix: Seq<u32>, rest: Option<Seq<u32>>) -> Option<Seq<u32>> {
    match rest {
        None => None,
        Some(ys) => Some(prefix + ys),
    }
}

/// `first_comma` is pinned by its characteristic property.
pub proof fn lemma_first_comma(s: Seq<u8>, m: int)
    requires
        0 <= m <= s.len(),
        forall|k: int| 0 <= k < m ==> s[k] != 44,
        m < s.len() ==> s[m] == 44,
    ensures
        first_comma(s) == m,
    decreases s.len(),
{
    if s.len() == 0 {
    } else if m == 0 {
    } else {
        assert(s[0] != 44);
        assert forall|k: int| 0 <= k < m - 1 implies s.drop_first()[k] != 44 by {
            assert(s.drop_first()[k] == s[k + 1]);
        }
        assert(m - 1 < s.drop_first().len() ==> s.drop_first()[m - 1] == s[m]);
        lemma_first_comma(s.drop_first(), m - 1);
    }
}

/// Removing the first `a` bytes, all whitespace up to a non-space, is
/// exactly `trim_front`.
pub proof fn lemma_trim_front(f: Seq<u8>, a: int)
    requires
        0 <= a <= f.len(),
        forall|k: int| 0 <= k < a ==> is_space(#[trigger] f[k]),
        a < f.len() ==> !is_space(f[a]),
    ensures
        trim_front(f) == f.skip(a),
    decreases a,
{
    if a == 0 {
        assert(f.skip(0) =~= f);
    } else {
        assert(is_space(f[0]));
        assert forall|k: int| 0 <= k < a - 1 implies is_space(#[trigger] f.drop_first()[k]) by {
            assert(f.drop_first()[k] == f[k + 1]);
        }
        assert(a - 1 < f.drop_first().len() ==> f.drop_first()[a - 1] == f[a]);
        lemma_trim_front(f.drop_first(), a - 1);
        assert(f.drop_first().skip(a - 1) =~= f.skip(a));
    }
}

/// Keeping the first `b` bytes, with only whitespace after them, is exactly
/// `trim_back`.
pub proof fn lemma_trim_back(f: Seq<u8>, b: int)
    requires
        0 <= b <= f.len(),
        forall|k: int| b <= k < f.len() ==> is_space(#[trigger] f[k]),
        b > 0 ==> !is_space(f[b - 1]),
    ensures
        trim_back(f) == f.take(b),
    decreases f.len(),
{
    if b == f.len() {
        if f.len() > 0 {
            assert(!is_space(f.last()));
        }
        assert(f.take(b) =~= f);
    } else {
        assert(is_space(f.last()));
        lemma_trim_back(f.drop_last(), b);
        assert(f.drop_last().take(b) =~= f.take(b));
    }
}

/// A digit string's value is never negative.
pub proof fn lemma_digits_val_nonneg(d: Seq<u8>)
    requires
        all_digits(d),
    ensures
        digits_val(d) >= 0,
    decreases d.len(),
{
    if d.len() > 0 {
        assert(all_digits(d.drop_last())) by {
            assert(forall|i: int|
                0 <= i < d.len() - 1 ==> #[trigger] d.drop_last()[i] == d[i]);
        }
        lemma_digits_val_nonneg(d.drop_last());
    }
}

/// Extending a digit string never shrinks its value.
pub proof fn lemma_digits_val_grows(d: Seq<u8>, i: int)
    requires
        0 <= i <= d.len(),
        all_digits(d),
    ensures
        digits_val(d.take(i)) <= digits_val(d),
    decreases d.len(),
{
    if i == d.len() {
        assert(d.take(i) =~= d);
    } else {
        assert(all_digits(d.drop_last())) by {
            assert(forall|k: int|
                0 <= k < d.len() - 1 ==> #[trigger] d.drop_last()[k] == d[k]);
        }
        lemma_digits_val_grows(d.drop_last(), i);
        assert(d.drop_last().take(i) =~= d.take(i));
        lemma_digits_val_nonneg(d.drop_last());
    }
}

/// Parses the field `text[a..b]` (already trimmed) as an unsigned 32-bit
/// integer, accepting an optional leading plus sign.
fn parse_field(text: &[u8], a: usize, b: usize) -> (r: Option<u32>)
    requires
        a <= b <= text@.len(),
    ensures
        r == spec_parse_field(text@.subrange(a as int, b as int)),
{
    let ghost t = text@.subrange(a as int, b as int);
    if a == b {
        return None;
    }
    let mut ds: usize = a;
    if text[a] == 43 {
        ds = a + 1;
    }
    let ghost d = text@.subrange(ds as int, b as int);
    proof {
        if text@[a as int] == 43 {
            assert(t.drop_first() =~= d);
        } else {
            assert(t =~= d);
        }
    }
    if ds == b {
        return None;
    }
    let mut acc: u32 = 0;
    let mut idx: usize = ds;
    while idx < b
        invariant
            ds <= idx <= b,
            b <= text@.len(),
            t == text@.subrange(a as int, b as int),
            d == text@.subrange(ds as int, b as int),
            (d == if t.len() > 0 && t[0] == 43 {
                t.drop_first()
            } else {
                t
            }),
            d.len() > 0,
            forall|k: int| 0 <= k < idx - ds ==> is_digit(#[trigger] d[k]),
            acc == digits_val(d.take(idx - ds)),
        decreases b - idx,
    {
        let ch = text[idx];
        proof {
            assert(d[idx - ds] == ch);
        }
        if ch < 48 || ch > 57 {
            proof {
                assert(!is_digit(d[idx - ds]));
            }
            return None;
        }
        let digit = (ch - 48) as u32;
        proof {
            assert(d.take(idx - ds + 1).drop_last() =~= d.take(idx - ds));
            assert(d.take(idx - ds + 1).last() == d[idx - ds]);
        }
        if acc > (u32::MAX - digit) / 10 {
            proof {
                assert(digits_val(d.take(idx - ds + 1)) == acc * 10 + digit);
                assert(acc * 10 + digit > u32::MAX) by {
                    let q = (u32::MAX - digit) / 10;
                    assert(10 * q + 9 >= u32::MAX - digit);
                }
                if all_digits(d) {
                    lemma_digits_val_grows(d, idx - ds + 1);
                }
            }
            return None;
        }
        acc = acc * 10 + digit;
        idx = idx + 1;
    }
    proof {
        assert(d.take(b - ds) =~= d);
    }
    Some(acc)
}

/// Parses a comma-separated input list: whitespace around a field is
/// ignored, empty fields are discarded, and each remaining field must be an
/// unsigned 32-bit integer, else the whole text fails with `ParseError`.
pub fn parse_inputs(text: &[u8]) -> (r: Result<VecDeque<u32>, Error>)
    ensures
        (match spec_parse_inputs(text@) {
            Some(vals) => r matches Ok(q) && q@ == vals,
            None => r == Err::<VecDeque<u32>, Error>(Error::ParseError),
        }),
{
    let n: usize = text.len();
    let mut q: VecDeque<u32> = VecDeque::new();
    let mut pos: usize = 0;
    proof {
        assert(text@.skip(0) =~= text@);
    }
    loop
        invariant
            pos <= n,
            n == text@.len(),
            spec_parse_inputs(text@) == combine(q@, spec_parse_inputs(text@.skip(pos as int))),
        decreases n - pos,
    {
        let ghost suffix = text@.skip(pos as int);
        let ghost q_pre = q@;
        // find the end of the current field
        let mut j: usize = pos;
        while j < n && text[j] != 44
            invariant
                pos <= j <= n,
                n == text@.len(),
                forall|k: int| pos <= k < j ==> text@[k] != 44,
            decreases n - j,
        {
            j = j + 1;
        }
        proof {
            assert forall|k: int| 0 <= k < j - pos implies suffix[k] != 44 by {
                assert(suffix[k] == text@[pos + k]);
            }
            assert(j - pos < suffix.len() ==> suffix[j - pos] == text@[j as int]);
            lemma_first_comma(suffix, j - pos);
        }
        let ghost f = text@.subrange(pos as int, j as int);
        proof {
            assert(suffix.take(j - pos) =~= f);
            if j == n {
                assert(suffix =~= f);
            }
        }
        // trim the field
        let mut a: usize = pos;
        while a < j && (text[a] == 32 || (9 <= text[a] && text[a] <= 13))
            invariant
                pos <= a <= j <= n,
                n == text@.len(),
                forall|k: int| pos <= k < a ==> is_space(#[trigger] text@[k]),
            decreases j - a,
        {
            a = a + 1;
        }
        let mut b: usize = j;
        while b > a && (text[b - 1] == 32 || (9 <= text[b - 1] && text[b - 1] <= 13))
            invariant
                a <= b <= j <= n,
                n == text@.len(),
                forall|k: int| b <= k < j ==> is_space(#[trigger] text@[k]),
            decreases b - a,
        {
            b = b - 1;
        }
        proof {
            assert forall|k: int| 0 <= k < a - pos implies is_space(#[trigger] f[k]) by {
                assert(f[k] == text@[pos + k]);
            }
            assert(a - pos < f.len() ==> f[a - pos] == text@[a as int]);
            lemma_trim_front(f, a - pos);
            let g = f.skip(a - pos);
            assert(g =~= text@.subrange(a as int, j as int));
            assert forall|k: int| b - a <= k < g.len() implies is_space(#[trigger] g[k]) by {
                assert(g[k] == text@[a + k]);
            }
            assert(b - a > 0 ==> g[b - a - 1] == text@[b - 1]);
            lemma_trim_back(g, b - a);
            assert(g.take(b - a) =~= text@.subrange(a as int, b as int));
            assert(spec_trim(f) == text@.subrange(a as int, b as int));
        }
        if a == b {
            proof {
                assert(spec_trim(f).len() == 0);
                assert(field_values(f) == Some(Seq::<u32>::empty()));
            }
        } else {
            match parse_field(text, a, b) {
                Some(v) => {
                    q.push_back(v);
                    proof {
                        assert(spec_trim(f).len() > 0);
                        assert(field_values(f) == Some(seq![v]));
                    }
                },
                None => {
                    proof {
                        assert(spec_trim(f).len() > 0);
                        assert(field_values(f) is None);
                        if j == n {
                            assert(spec_parse_inputs(suffix) is None);
                        } else {
                            assert(first_comma(suffix) == j - pos);
                            assert(spec_parse_inputs(suffix) is None);
                        }
                        assert(spec_parse_inputs(text@) is None);
                    }
                    return Err(Error::ParseError);
                },
            }
        }
        let ghost xs = field_values(f).unwrap();
        proof {
            assert(q@ == q_pre + xs);
        }
        if j == n {
            proof {
                assert(first_comma(suffix) == suffix.len());
                assert(spec_parse_inputs(suffix) == field_values(f));
                assert(q_pre + xs =~= q@);
                assert(spec_parse_inputs(text@) == Some(q@));
            }
            return Ok(q);
        }
        proof {
            assert(first_comma(suffix) == j - pos);
            assert(suffix.skip(j - pos + 1) =~= text@.skip(j + 1));
            let rest = spec_parse_inputs(text@.skip(j + 1));
            assert(spec_parse_inputs(suffix) == combine(xs, rest));
            match rest {
                Some(ys) => {
                    assert((q_pre + xs) + ys =~= q_pre + (xs + ys));
                },
                None => {},
            }
            assert(combine(q_pre, spec_parse_inputs(suffix)) == combine(q@, rest));
        }
        pos = j + 1;
    }
}

} // verus!
