//! Reading a puzzle from text and rendering a grid back to text.
//!
//! The textual form is a series of unsigned integers separated by
//! whitespace; `0` stands for an empty position. Tokens that are not plain
//! decimal numbers are skipped.

use vstd::arithmetic::div_mod::lemma_fundamental_div_mod;
use vstd::prelude::*;
use vstd::string::StrSliceExecFns;
use vstd::string::StringExecFns;

verus! {

/// The whitespace characters that separate tokens.
pub open spec fn is_space(c: char) -> bool {
    c == ' ' || c == '\n' || c == '\t' || c == '\r'
}

pub open spec fn is_digit(c: char) -> bool {
    48 <= c as u32 <= 57
}

pub open spec fn digit_val(c: char) -> int {
    c as u32 - 48
}

pub open spec fn digit_char(d: int) -> char {
    if d == 0 {
        '0'
    } else if d == 1 {
        '1'
    } else if d == 2 {
        '2'
    } else if d == 3 {
        '3'
    } else if d == 4 {
        '4'
    } else if d == 5 {
        '5'
    } else if d == 6 {
        '6'
    } else if d == 7 {
        '7'
    } else if d == 8 {
        '8'
    } else {
        '9'
    }
}

/// The number a run of decimal digits denotes.
pub open spec fn token_val(t: Seq<char>) -> int
    decreases t.len(),
{
    if t.len() == 0 {
        0
    } else {
        token_val(t.drop_last()) * 10 + digit_val(t.last())
    }
}

pub open spec fn all_digits(t: Seq<char>) -> bool {
    forall|i: int| 0 <= i < t.len() ==> is_digit(#[trigger] t[i])
}

/// A token yields a value when it is a non-empty run of digits whose value
/// fits the machine word.
pub open spec fn token_ok(t: Seq<char>) -> bool {
    t.len() > 0 && all_digits(t) && token_val(t) <= usize::MAX
}

pub open spec fn token_values(t: Seq<char>) -> Seq<int> {
    if token_ok(t) {
        seq![token_val(t)]
    } else {
        Seq::empty()
    }
}

/// The values of the tokens of `s`, with `cur` the partial token read so
/// far: characters are taken one by one, whitespace closes the current
/// token, and anything that is not a valid number is dropped.
pub open spec fn parse_rec(s: Seq<char>, cur: Seq<char>) -> Seq<int>
    decreases s.len(),
{
    if s.len() == 0 {
        token_values(cur)
    } else if is_space(s[0]) {
        token_values(cur) + parse_rec(s.drop_first(), Seq::empty())
    } else {
        parse_rec(s.drop_first(), cur.push(s[0]))
    }
}

/// The sequence of numbers the text denotes.
pub open spec fn parse_values(s: Seq<char>) -> Seq<int> {
    parse_rec(s, Seq::empty())
}

pub proof fn lemma_token_val_nonneg(t: Seq<char>)
    requires
        all_digits(t),
    ensures
        token_val(t) >= 0,
    decreases t.len(),
{
    if t.len() > 0 {
        assert(all_digits(t.drop_last())) by {
            assert(forall|i: int|
                0 <= i < t.len() - 1 ==> t.drop_last()[i] == #[trigger] t[i]);
        }
        lemma_token_val_nonneg(t.drop_last());
        assert(is_digit(t.last()));
    }
}

/// Parse the whitespace-separated numbers of `source`, skipping malformed
/// tokens.
pub fn parse_tokens(source: &str) -> (r: Vec<usize>)
    ensures
        r@.map_values(|v: usize| v as int) == parse_values(source@),
{
    let len = source.unicode_len();
    let mut res: Vec<usize> = Vec::new();
    let ghost mut cur: Seq<char> = Seq::empty();
    let mut val: usize = 0;
    let mut cur_len: usize = 0;
    let mut nondigit: bool = false;
    let mut overflow: bool = false;
    let mut i: usize = 0;
    proof {
        assert(source@.skip(0) =~= source@);
    }
    while i < len
        invariant
            i <= len,
            len == source@.len(),
            cur_len == cur.len(),
            cur_len <= i,
            nondigit <==> !all_digits(cur),
            !nondigit && !overflow ==> val == token_val(cur),
            !nondigit ==> (overflow <==> token_val(cur) > usize::MAX),
            res@.map_values(|v: usize| v as int) + parse_rec(source@.skip(i as int), cur)
                == parse_values(source@),
        decreases len - i,
    {
        let c = source.get_char(i);
        proof {
            assert(source@.skip(i as int)[0] == source@[i as int]);
            assert(source@.skip(i as int).drop_first() =~= source@.skip(i as int + 1));
        }
        if c == ' ' || c == '\n' || c == '\t' || c == '\r' {
            proof {
                if cur_len > 0 && !nondigit {
                    lemma_token_val_nonneg(cur);
                }
                assert(parse_rec(source@.skip(i as int), cur) == token_values(cur)
                    + parse_rec(source@.skip(i as int + 1), Seq::empty()));
            }
            if cur_len > 0 && !nondigit && !overflow {
                assert(token_ok(cur));
                res.push(val);
                proof {
                    assert(res@.map_values(|v: usize| v as int) =~= pushed_vals(res@, val));
                }
            } else {
                assert(token_values(cur) =~= Seq::<int>::empty());
            }
            val = 0;
            cur_len = 0;
            nondigit = false;
            overflow = false;
            proof {
                cur = Seq::empty();
            }
        } else {
            proof {
                assert(parse_rec(source@.skip(i as int), cur) == parse_rec(
                    source@.skip(i as int + 1),
                    cur.push(source@[i as int]),
                ));
                assert(cur.push(c).drop_last() =~= cur);
                assert(cur.push(c).last() == c);
            }
            let cu = c as u32;
            if cu >= 48 && cu <= 57 {
                let d = (cu - 48) as usize;
                assert(is_digit(c) && digit_val(c) == d);
                if !nondigit && !overflow {
                    proof {
                        lemma_token_val_nonneg(cur);
                    }
                    let q = (usize::MAX - d) / 10;
                    proof {
                        lemma_fundamental_div_mod((usize::MAX - d) as int, 10);
                    }
                    if val <= q {
                        val = val * 10 + d;
                    } else {
                        overflow = true;
                        assert(token_val(cur.push(c)) > usize::MAX);
                    }
                } else if !nondigit {
                    // Already overflowed: the value can only grow.
                    proof {
                        lemma_token_val_nonneg(cur);
                        assert(token_val(cur.push(c)) > usize::MAX);
                    }
                }
            } else {
                assert(!is_digit(c));
                nondigit = true;
                assert(!all_digits(cur.push(c)));
            }
            proof {
                if !nondigit {
                    assert(all_digits(cur.push(c))) by {
                        assert(forall|k: int|
                            0 <= k < cur.len() ==> cur.push(c)[k] == #[trigger] cur[k]);
                    }
                }
            }
            cur_len = cur_len + 1;
            proof {
                cur = cur.push(c);
            }
        }
        i = i + 1;
    }
    proof {
        assert(source@.skip(len as int) =~= Seq::<char>::empty());
        if cur_len > 0 && !nondigit {
            lemma_token_val_nonneg(cur);
        }
    }
    if cur_len > 0 && !nondigit && !overflow {
        res.push(val);
        proof {
            assert(res@.map_values(|v: usize| v as int) =~= pushed_vals(res@, val));
        }
    } else {
        assert(token_values(cur) =~= Seq::<int>::empty());
    }
    proof {
        assert(res@.map_values(|v: usize| v as int) =~= parse_values(source@));
    }
    res
}

/// The numbers a vector denotes after pushing `v`: those it denoted
/// before, with `v` appended.
spec fn pushed_vals(s: Seq<usize>, v: usize) -> Seq<int> {
    s.drop_last().map_values(|x: usize| x as int).push(v as int)
}

/// The decimal digits of `v`, most significant first.
pub open spec fn dec_digits(v: int) -> Seq<char>
    decreases v,
{
    if v < 10 {
        seq![digit_char(v)]
    } else {
        dec_digits(v / 10).push(digit_char(v % 10))
    }
}

/// Decimal digits denote the number they were taken from.
pub proof fn lemma_dec_digits(v: int)
    requires
        v >= 0,
    ensures
        dec_digits(v).len() > 0,
        all_digits(dec_digits(v)),
        forall|i: int| 0 <= i < dec_digits(v).len() ==> !is_space(#[trigger] dec_digits(v)[i]),
        token_val(dec_digits(v)) == v,
    decreases v,
{
    if v < 10 {
        let t = seq![digit_char(v)];
        assert(t.drop_last() =~= Seq::<char>::empty());
        assert(token_val(Seq::<char>::empty()) == 0);
        assert(t.last() == digit_char(v));
        assert(digit_val(digit_char(v)) == v);
        assert(token_val(t) == digit_val(digit_char(v)));
    } else {
        lemma_fundamental_div_mod(v, 10);
        lemma_dec_digits(v / 10);
        let t = dec_digits(v / 10).push(digit_char(v % 10));
        assert(t.drop_last() =~= dec_digits(v / 10));
        assert(t.last() == digit_char(v % 10));
        assert(token_val(t) == (v / 10) * 10 + digit_val(digit_char(v % 10)));
    }
}

/// One decimal digit as text. Relies on nothing outside this crate.
fn digit_str(d: usize) -> (r: &'static str)
    requires
        d < 10,
    ensures
        r@ =~= seq![digit_char(d as int)],
{
    proof {
        reveal_strlit("0");
        reveal_strlit("1");
        reveal_strlit("2");
        reveal_strlit("3");
        reveal_strlit("4");
        reveal_strlit("5");
        reveal_strlit("6");
        reveal_strlit("7");
        reveal_strlit("8");
        reveal_strlit("9");
    }
    if d == 0 {
        "0"
    } else if d == 1 {
        "1"
    } else if d == 2 {
        "2"
    } else if d == 3 {
        "3"
    } else if d == 4 {
        "4"
    } else if d == 5 {
        "5"
    } else if d == 6 {
        "6"
    } else if d == 7 {
        "7"
    } else if d == 8 {
        "8"
    } else {
        "9"
    }
}

/// Append the decimal form of `v` to `out`.
pub fn push_value(out: &mut String, v: usize)
    ensures
        final(out)@ == old(out)@ + dec_digits(v as int),
    decreases v,
{
    if v >= 10 {
        push_value(out, v / 10);
    }
    out.append(digit_str(v % 10));
    proof {
        if v < 10 {
            assert(final(out)@ =~= old(out)@ + dec_digits(v as int));
        } else {
            assert(final(out)@ =~= old(out)@ + dec_digits(v as int));
        }
    }
}

/// Append a single space to `out`.
pub fn push_space(out: &mut String)
    ensures
        final(out)@ == old(out)@ + seq![' '],
{
    proof {
        reveal_strlit(" ");
    }
    out.append(" ");
    proof {
        assert(final(out)@ =~= old(out)@ + seq![' ']);
    }
}

/// Append a line break to `out`.
pub fn push_newline(out: &mut String)
    ensures
        final(out)@ == old(out)@ + seq!['\n'],
{
    proof {
        reveal_strlit("\n");
    }
    out.append("\n");
    proof {
        assert(final(out)@ =~= old(out)@ + seq!['\n']);
    }
}

/// The text of one grid row: each value followed by a single space.
pub open spec fn render_cells(vals: Seq<int>) -> Seq<char>
    decreases vals.len(),
{
    if vals.len() == 0 {
        Seq::empty()
    } else {
        dec_digits(vals[0]) + seq![' '] + render_cells(vals.drop_first())
    }
}

/// The text of a grid of values laid out in rows of `d`, each row ended by
/// a line break.
pub open spec fn render_rows(vals: Seq<int>, d: int) -> Seq<char>
    decreases vals.len(),
{
    if vals.len() == 0 || d <= 0 {
        Seq::empty()
    } else if vals.len() <= d {
        render_cells(vals) + seq!['\n']
    } else {
        render_cells(vals.take(d)) + seq!['\n'] + render_rows(vals.skip(d), d)
    }
}

/// The full rendering of a grid: its rows, then one blank line.
pub open spec fn render_grid(vals: Seq<int>, d: int) -> Seq<char> {
    render_rows(vals, d) + seq!['\n']
}

/// Reading walks over a run of non-space characters by adding it to the
/// partial token.
proof fn lemma_parse_over_token(t: Seq<char>, r: Seq<char>, cur: Seq<char>)
    requires
        forall|i: int| 0 <= i < t.len() ==> !is_space(#[trigger] t[i]),
    ensures
        parse_rec(t + r, cur) == parse_rec(r, cur + t),
    decreases t.len(),
{
    if t.len() == 0 {
        assert(t + r =~= r);
        assert(cur + t =~= cur);
    } else {
        assert((t + r)[0] == t[0]);
        assert((t + r).drop_first() =~= t.drop_first() + r);
        assert(forall|i: int|
            0 <= i < t.drop_first().len() ==> !is_space(#[trigger] t.drop_first()[i]));
        lemma_parse_over_token(t.drop_first(), r, cur.push(t[0]));
        assert(cur.push(t[0]) + t.drop_first() =~= cur + t);
    }
}

/// A space character closes the current token.
proof fn lemma_parse_space(c: char, r: Seq<char>, cur: Seq<char>)
    requires
        is_space(c),
    ensures
        parse_rec(seq![c] + r, cur) == token_values(cur) + parse_rec(r, Seq::empty()),
{
    assert((seq![c] + r)[0] == c);
    assert((seq![c] + r).drop_first() =~= r);
}

/// Reading back the text of one row of values yields those values.
proof fn lemma_parse_cells(vals: Seq<int>, r: Seq<char>)
    requires
        forall|i: int| 0 <= i < vals.len() ==> 0 <= #[trigger] vals[i] <= usize::MAX,
    ensures
        parse_rec(render_cells(vals) + r, Seq::empty()) == vals + parse_rec(r, Seq::empty()),
    decreases vals.len(),
{
    if vals.len() == 0 {
        assert(render_cells(vals) + r =~= r);
        assert(vals + parse_rec(r, Seq::empty()) =~= parse_rec(r, Seq::empty()));
    } else {
        let v = vals[0];
        lemma_dec_digits(v);
        let tail = render_cells(vals.drop_first()) + r;
        assert(render_cells(vals) + r =~= dec_digits(v) + (seq![' '] + tail));
        lemma_parse_over_token(dec_digits(v), seq![' '] + tail, Seq::empty());
        assert(Seq::empty() + dec_digits(v) =~= dec_digits(v));
        lemma_parse_space(' ', tail, dec_digits(v));
        assert(token_ok(dec_digits(v)));
        assert(token_values(dec_digits(v)) =~= seq![v]);
        assert(forall|i: int|
            0 <= i < vals.drop_first().len() ==> 0 <= #[trigger] vals.drop_first()[i]
                <= usize::MAX);
        lemma_parse_cells(vals.drop_first(), r);
        assert(seq![v] + (vals.drop_first() + parse_rec(r, Seq::empty())) =~= vals + parse_rec(
            r,
            Seq::empty(),
        ));
    }
}

/// Reading back the text of whole rows yields the rendered values.
proof fn lemma_parse_rows(vals: Seq<int>, d: int, r: Seq<char>)
    requires
        d >= 1,
        forall|i: int| 0 <= i < vals.len() ==> 0 <= #[trigger] vals[i] <= usize::MAX,
    ensures
        parse_rec(render_rows(vals, d) + r, Seq::empty()) == vals + parse_rec(r, Seq::empty()),
    decreases vals.len(),
{
    if vals.len() == 0 {
        assert(render_rows(vals, d) + r =~= r);
        assert(vals + parse_rec(r, Seq::empty()) =~= parse_rec(r, Seq::empty()));
    } else if vals.len() <= d {
        assert(render_rows(vals, d) + r =~= render_cells(vals) + (seq!['\n'] + r));
        lemma_parse_cells(vals, seq!['\n'] + r);
        lemma_parse_space('\n', r, Seq::empty());
        assert(token_values(Seq::<char>::empty()) =~= Seq::<int>::empty());
        assert(Seq::<int>::empty() + parse_rec(r, Seq::empty()) =~= parse_rec(r, Seq::empty()));
    } else {
        let rest = render_rows(vals.skip(d), d) + r;
        assert(render_rows(vals, d) + r =~= render_cells(vals.take(d)) + (seq!['\n'] + rest));
        assert(forall|i: int|
            0 <= i < vals.take(d).len() ==> 0 <= #[trigger] vals.take(d)[i] <= usize::MAX);
        lemma_parse_cells(vals.take(d), seq!['\n'] + rest);
        lemma_parse_space('\n', rest, Seq::empty());
        assert(token_values(Seq::<char>::empty()) =~= Seq::<int>::empty());
        assert(Seq::<int>::empty() + parse_rec(rest, Seq::empty()) =~= parse_rec(
            rest,
            Seq::empty(),
        ));
        assert(forall|i: int|
            0 <= i < vals.skip(d).len() ==> 0 <= #[trigger] vals.skip(d)[i] <= usize::MAX);
        lemma_parse_rows(vals.skip(d), d, r);
        assert(vals.take(d) + (vals.skip(d) + parse_rec(r, Seq::empty())) =~= vals + parse_rec(
            r,
            Seq::empty(),
        ));
    }
}

/// Rendering a sequence of grid values and reading the text back yields
/// exactly the same values.
pub proof fn lemma_render_parse_round_trip(vals: Seq<int>, d: int)
    requires
        d >= 1 || vals.len() == 0,
        forall|i: int| 0 <= i < vals.len() ==> 0 <= #[trigger] vals[i] <= usize::MAX,
    ensures
        parse_values(render_grid(vals, d)) == vals,
{
    let nl = seq!['\n'];
    assert(nl + Seq::<char>::empty() =~= nl);
    lemma_parse_space('\n', Seq::empty(), Seq::empty());
    assert(token_values(Seq::<char>::empty()) =~= Seq::<int>::empty());
    assert(parse_rec(nl, Seq::empty()) =~= Seq::<int>::empty());
    if vals.len() == 0 {
        assert(render_grid(vals, d) =~= nl);
        assert(vals =~= Seq::<int>::empty());
    } else {
        lemma_parse_rows(vals, d, nl);
        assert(render_grid(vals, d) =~= render_rows(vals, d) + nl);
        assert(vals + Seq::<int>::empty() =~= vals);
    }
}

} // verus!
