use vstd::prelude::*;
use vstd::string::*;

use crate::{PatchError, PatchFault};

verus! {

/// Unicode white space, the set that `char::is_whitespace` and `str::split_whitespace` use.
pub open spec fn is_space(c: char) -> bool {
    let u = c as u32;
    u == 0x20 || (0x09 <= u && u <= 0x0d) || u == 0x85 || u == 0xa0 || u == 0x1680 || (0x2000 <= u
        && u <= 0x200a) || u == 0x2028 || u == 0x2029 || u == 0x202f || u == 0x205f || u == 0x3000
}

/// The maximal runs of non-space characters of `s`, in order.
pub open spec fn tokens_of(s: Seq<char>) -> Seq<Seq<char>>
    decreases s.len(),
{
    if s.len() == 0 {
        seq![]
    } else {
        let prev = tokens_of(s.drop_last());
        let c = s.last();
        if is_space(c) {
            prev
        } else if s.len() >= 2 && !is_space(s[s.len() - 2]) {
            prev.drop_last().push(prev.last().push(c))
        } else {
            prev.push(seq![c])
        }
    }
}

/// The value of a hexadecimal digit of either case.
pub open spec fn digit_value(c: char) -> Option<nat> {
    if '0' <= c && c <= '9' {
        Some((c as u32 - 48) as nat)
    } else if 'a' <= c && c <= 'f' {
        Some((c as u32 - 87) as nat)
    } else if 'A' <= c && c <= 'F' {
        Some((c as u32 - 55) as nat)
    } else {
        None
    }
}

pub open spec fn all_digits(t: Seq<char>) -> bool {
    forall|i: int| 0 <= i < t.len() ==> (#[trigger] digit_value(t[i])) is Some
}

/// The number that the hexadecimal digits `t` stand for.
pub open spec fn digits_value(t: Seq<char>) -> nat
    decreases t.len(),
{
    if t.len() == 0 {
        0
    } else {
        digits_value(t.drop_last()) * 16 + digit_value(t.last()).unwrap_or(0)
    }
}

/// The byte that a token stands for, as Rust reads an unsigned integer in base 16: an
/// optional `+`, then at least one digit of either case, with a value below 256.
pub open spec fn hex_byte(t: Seq<char>) -> Option<u8> {
    let d = if t.len() > 0 && t[0] == '+' {
        t.drop_first()
    } else {
        t
    };
    if d.len() > 0 && all_digits(d) && digits_value(d) <= 255 {
        Some(digits_value(d) as u8)
    } else {
        None
    }
}

/// Decodes the tokens in order into bytes, failing at the first token past `n` or the first
/// token that is no hexadecimal byte. `line` is the whole line, which the overflow error names.
pub open spec fn decode_tokens(toks: Seq<Seq<char>>, n: nat, line: Seq<char>) -> Result<
    Seq<u8>,
    PatchFault,
>
    decreases toks.len(),
{
    if toks.len() == 0 {
        Ok(seq![])
    } else {
        match decode_tokens(toks.drop_last(), n, line) {
            Err(e) => Err(e),
            Ok(v) => if toks.len() > n {
                Err(PatchFault::TooLongString(line))
            } else {
                match hex_byte(toks.last()) {
                    Some(b) => Ok(v.push(b)),
                    None => Err(PatchFault::ConversionFailure(toks.last())),
                }
            },
        }
    }
}

/// The `n` bytes that a hex line stands for: its decoded tokens, then zeros.
pub open spec fn decode_line(line: Seq<char>, n: nat) -> Result<Seq<u8>, PatchFault> {
    match decode_tokens(tokens_of(line), n, line) {
        Ok(v) => Ok(v + Seq::new((n - v.len()) as nat, |i: int| 0u8)),
        Err(e) => Err(e),
    }
}

/// Digit `d` (below 16) as a lower-case hexadecimal character.
pub open spec fn hex_char(d: nat) -> char {
    if d < 10 {
        ((d + 48) as u8) as char
    } else {
        ((d + 87) as u8) as char
    }
}

/// A byte as two lower-case hexadecimal digits.
pub open spec fn byte_text(b: u8) -> Seq<char> {
    seq![hex_char((b / 16) as nat), hex_char((b % 16) as nat)]
}

/// Bytes as two-digit lower-case hexadecimal tokens separated by single spaces.
pub open spec fn hex_text(a: Seq<u8>) -> Seq<char>
    decreases a.len(),
{
    if a.len() == 0 {
        seq![]
    } else if a.len() == 1 {
        byte_text(a[0])
    } else {
        hex_text(a.drop_last()) + seq![' '] + byte_text(a.last())
    }
}

/// Whether `c` is white space.
pub fn is_space_char(c: char) -> (r: bool)
    ensures
        r == is_space(c),
{
    let u = c as u32;
    u == 0x20 || (0x09 <= u && u <= 0x0d) || u == 0x85 || u == 0xa0 || u == 0x1680 || (0x2000 <= u
        && u <= 0x200a) || u == 0x2028 || u == 0x2029 || u == 0x202f || u == 0x205f || u == 0x3000
}

fn digit_of(c: char) -> (r: Option<u32>)
    ensures
        r matches Some(v) ==> digit_value(c) == Some(v as nat),
        r is None ==> digit_value(c) is None,
{
    if '0' <= c && c <= '9' {
        Some(c as u32 - 48)
    } else if 'a' <= c && c <= 'f' {
        Some(c as u32 - 87)
    } else if 'A' <= c && c <= 'F' {
        Some(c as u32 - 55)
    } else {
        None
    }
}

/// Splits a line at runs of white space into its tokens.
pub fn split_tokens(text: &str) -> (r: Vec<String>)
    ensures
        r.deep_view() == tokens_of(text@),
{
    let n = text.unicode_len();
    let mut out: Vec<String> = Vec::new();
    let mut start: usize = 0;
    let mut in_token = false;
    let mut i: usize = 0;
    while i < n
        invariant
            n == text@.len(),
            i <= n,
            start <= i,
            in_token <==> (i > 0 && !is_space(text@[i - 1])),
            in_token ==> start < i && tokens_of(text@.take(i as int)) == out.deep_view().push(
                text@.subrange(start as int, i as int),
            ),
            !in_token ==> tokens_of(text@.take(i as int)) == out.deep_view(),
        decreases n - i,
    {
        let c = text.get_char(i);
        let ghost s = text@.take(i + 1);
        assert(s.drop_last() == text@.take(i as int));
        assert(i > 0 ==> s[s.len() - 2] == text@[i - 1]);
        if is_space_char(c) {
            if in_token {
                let t = String::from_str(text.substring_char(start, i));
                let ghost before = out.deep_view();
                out.push(t);
                assert(out.deep_view() =~= before.push(text@.subrange(start as int, i as int)));
            }
            in_token = false;
        } else {
            if !in_token {
                start = i;
                assert(text@.subrange(start as int, i + 1) =~= seq![c]);
            } else {
                assert(text@.subrange(start as int, i + 1) =~= text@.subrange(
                    start as int,
                    i as int,
                ).push(c));
            }
            in_token = true;
        }
        i = i + 1;
    }
    if in_token {
        let t = String::from_str(text.substring_char(start, n));
        let ghost before = out.deep_view();
        out.push(t);
        assert(out.deep_view() =~= before.push(text@.subrange(start as int, n as int)));
    }
    assert(text@.take(n as int) =~= text@);
    out
}

/// Reads one token as a byte in base 16, as `u8::from_str_radix(t, 16)` does.
pub fn parse_hex_byte(t: &str) -> (r: Option<u8>)
    ensures
        r == hex_byte(t@),
{
    let n = t.unicode_len();
    if n == 0 {
        return None;
    }
    let off: usize = if t.get_char(0) == '+' {
        1
    } else {
        0
    };
    let ghost d = if t@[0] == '+' {
        t@.drop_first()
    } else {
        t@
    };
    assert(d =~= t@.subrange(off as int, n as int));
    if off == n {
        return None;
    }
    let mut acc: u32 = 0;
    let mut i: usize = off;
    while i < n
        invariant
            off <= i <= n,
            n == t@.len(),
            d == t@.subrange(off as int, n as int),
            d == (if t@.len() > 0 && t@[0] == '+' {
                t@.drop_first()
            } else {
                t@
            }),
            all_digits(d.take(i - off)),
            acc == if digits_value(d.take(i - off)) > 255 {
                256
            } else {
                digits_value(d.take(i - off))
            },
        decreases n - i,
    {
        let c = t.get_char(i);
        let ghost k = i - off;
        assert(d[k] == c);
        assert(d.take(k + 1).drop_last() =~= d.take(k));
        match digit_of(c) {
            None => {
                assert(digit_value(d[k]) is None);
                assert(!all_digits(d));
                return None;
            },
            Some(v) => {
                let next = acc * 16 + v;
                acc = if next > 255 {
                    256
                } else {
                    next
                };
            },
        }
        i = i + 1;
    }
    assert(d.take(n - off) =~= d);
    if acc > 255 {
        None
    } else {
        Some(acc as u8)
    }
}

/// Decodes a line of white-space-separated hexadecimal tokens into exactly `N` bytes. Missing
/// tokens leave zeros; a token past the `N`-th, or one that is no hexadecimal byte, is an error.
pub fn hex_string_to_array<const N: usize>(hex_string: &str) -> (r: Result<[u8; N], PatchError>)
    ensures
        match r {
            Ok(a) => decode_line(hex_string@, N as nat) == Ok::<Seq<u8>, PatchFault>(a@),
            Err(e) => decode_line(hex_string@, N as nat) == Err::<Seq<u8>, PatchFault>(e@),
        },
{
    let toks = split_tokens(hex_string);
    let ghost ts = toks.deep_view();
    let mut result = [0u8; N];
    let mut i: usize = 0;
    assert(ts.take(0) =~= seq![]);
    assert(result@.take(0) =~= seq![]);
    while i < toks.len()
        invariant
            ts == toks.deep_view(),
            ts == tokens_of(hex_string@),
            i <= toks.len(),
            i <= N,
            decode_tokens(ts.take(i as int), N as nat, hex_string@) == Ok::<Seq<u8>, PatchFault>(
                result@.take(i as int),
            ),
            forall|j: int| i <= j < N ==> result@[j] == 0u8,
        decreases toks.len() - i,
    {
        assert(ts.take(i + 1).drop_last() =~= ts.take(i as int));
        if i >= N {
            let e = PatchError::TooLongString(String::from_str(hex_string));
            assert(decode_tokens(ts.take(i + 1), N as nat, hex_string@) is Err);
            proof { lemma_decode_err_extends(ts, N as nat, hex_string@, i + 1); }
            return Err(e);
        }
        let tok = &toks[i];
        assert(tok@ == ts[i as int]);
        match parse_hex_byte(tok.as_str()) {
            Some(u) => {
                let ghost prev = result@;
                result[i] = u;
                assert(result@.take(i + 1) =~= prev.take(i as int).push(u));
            },
            None => {
                let e = PatchError::ConversionFailure(tok.clone());
                proof { lemma_decode_err_extends(ts, N as nat, hex_string@, i + 1); }
                return Err(e);
            },
        }
        i = i + 1;
    }
    assert(ts.take(i as int) =~= ts);
    assert(result@ =~= result@.take(i as int) + Seq::new((N - i) as nat, |j: int| 0u8));
    Ok(result)
}

/// Once decoding fails on a prefix of the tokens, it fails the same way on all of them.
proof fn lemma_decode_err_extends(ts: Seq<Seq<char>>, n: nat, line: Seq<char>, k: int)
    requires
        0 <= k <= ts.len(),
        decode_tokens(ts.take(k), n, line) is Err,
    ensures
        decode_tokens(ts, n, line) == decode_tokens(ts.take(k), n, line),
    decreases ts.len() - k,
{
    if k < ts.len() {
        assert(ts.take(k + 1).drop_last() =~= ts.take(k));
        lemma_decode_err_extends(ts, n, line, k + 1);
    } else {
        assert(ts.take(k) =~= ts);
    }
}

fn digit_str(d: u8) -> (r: &'static str)
    requires
        d < 16,
    ensures
        r@ == seq![hex_char(d as nat)],
{
    let digits = "0123456789abcdef";
    proof {
        reveal_strlit("0123456789abcdef");
    }
    let r = digits.substring_char(d as usize, d as usize + 1);
    assert(r@ =~= seq![hex_char(d as nat)]);
    r
}

/// Writes bytes as two-digit lower-case hexadecimal tokens separated by single spaces.
pub fn array_to_hexstring(arr: &[u8]) -> (r: String)
    ensures
        r@ == hex_text(arr@),
{
    let n = arr.len();
    let mut out = String::new();
    let mut i: usize = 0;
    assert(arr@.take(0) =~= seq![]);
    while i < n
        invariant
            n == arr@.len(),
            i <= n,
            out@ == hex_text(arr@.take(i as int)),
        decreases n - i,
    {
        let b = arr[i];
        let ghost prev = out@;
        if i > 0 {
            let space = " ";
            proof {
                reveal_strlit(" ");
            }
            out.append(space);
        }
        out.append(digit_str(b / 16));
        out.append(digit_str(b % 16));
        proof {
            let t = arr@.take(i + 1);
            assert(t.drop_last() =~= arr@.take(i as int));
            assert(t.last() == b);
            if i == 0 {
                assert(out@ =~= byte_text(b));
            } else {
                assert(out@ =~= prev + seq![' '] + byte_text(b));
            }
        }
        i = i + 1;
    }
    assert(arr@.take(n as int) =~= arr@);
    out
}

proof fn lemma_hex_char(d: nat)
    requires
        d < 16,
    ensures
        !is_space(hex_char(d)),
        hex_char(d) != '+',
        digit_value(hex_char(d)) == Some(d),
{
}

proof fn lemma_byte_text(b: u8)
    ensures
        hex_byte(byte_text(b)) == Some(b),
        byte_text(b).len() == 2,
        !is_space(byte_text(b)[0]),
        !is_space(byte_text(b)[1]),
{
    let t = byte_text(b);
    lemma_hex_char((b / 16) as nat);
    lemma_hex_char((b % 16) as nat);
    assert(t.drop_last().drop_last() =~= seq![]);
    assert(t.drop_last() =~= seq![t[0]]);
    let u = seq![t[0]];
    assert(u.drop_last() =~= Seq::<char>::empty());
    assert(digits_value(Seq::<char>::empty()) == 0);
    assert(u.last() == hex_char((b / 16) as nat));
    assert(digits_value(u) == (b / 16) as nat);
    assert(digits_value(t.drop_last()) == (b / 16) as nat);
    assert(t.last() == t[1]);
    assert(digits_value(t) == (b / 16) as nat * 16 + (b % 16) as nat);
    assert(all_digits(t));
}

proof fn lemma_tokens_of_hex_text(a: Seq<u8>)
    ensures
        tokens_of(hex_text(a)) == a.map_values(|b: u8| byte_text(b)),
    decreases a.len(),
{
    if a.len() == 0 {
        assert(a.map_values(|b: u8| byte_text(b)) =~= seq![]);
    } else if a.len() == 1 {
        let t = byte_text(a[0]);
        lemma_byte_text(a[0]);
        assert(t.drop_last().drop_last() =~= seq![]);
        assert(t.drop_last() =~= seq![t[0]]);
        let u = seq![t[0]];
        assert(u.drop_last() =~= Seq::<char>::empty());
        assert(tokens_of(Seq::<char>::empty()) =~= Seq::<Seq<char>>::empty());
        assert(u.last() == t[0]);
        assert(tokens_of(u) =~= seq![u]);
        assert(seq![t[0]].push(t[1]) =~= t);
        assert(a.map_values(|b: u8| byte_text(b)) =~= seq![t]);
    } else {
        let x = hex_text(a.drop_last());
        let t = byte_text(a.last());
        lemma_byte_text(a.last());
        lemma_tokens_of_hex_text(a.drop_last());
        let s = x + seq![' '] + t;
        assert(hex_text(a) == s);
        assert(s.drop_last() =~= x + seq![' '] + seq![t[0]]);
        assert((x + seq![' '] + seq![t[0]]).drop_last() =~= x + seq![' ']);
        assert((x + seq![' ']).drop_last() =~= x);
        assert(is_space(' '));
        assert(tokens_of(x + seq![' ']) == tokens_of(x));
        assert(tokens_of(s.drop_last()) == tokens_of(x).push(seq![t[0]]));
        assert(seq![t[0]].push(t[1]) =~= t);
        assert(tokens_of(s) =~= tokens_of(x).push(t));
        assert(a.map_values(|b: u8| byte_text(b)) =~= a.drop_last().map_values(|b: u8| byte_text(b)).push(t));
    }
}

proof fn lemma_decode_byte_texts(a: Seq<u8>, n: nat, line: Seq<char>)
    requires
        a.len() <= n,
    ensures
        decode_tokens(a.map_values(|b: u8| byte_text(b)), n, line) == Ok::<Seq<u8>, PatchFault>(a),
    decreases a.len(),
{
    let ts = a.map_values(|b: u8| byte_text(b));
    if a.len() == 0 {
        assert(a =~= seq![]);
    } else {
        lemma_decode_byte_texts(a.drop_last(), n, line);
        assert(ts.drop_last() =~= a.drop_last().map_values(|b: u8| byte_text(b)));
        lemma_byte_text(a.last());
        assert(a.drop_last().push(a.last()) =~= a);
    }
}

proof fn lemma_decode_tokens_len(toks: Seq<Seq<char>>, n: nat, line: Seq<char>)
    requires
        decode_tokens(toks, n, line) is Ok,
    ensures
        decode_tokens(toks, n, line)->Ok_0.len() == toks.len(),
        toks.len() <= n,
    decreases toks.len(),
{
    if toks.len() > 0 {
        lemma_decode_tokens_len(toks.drop_last(), n, line);
    }
}

/// A line that decodes, written back out as hexadecimal text, decodes to the same bytes.
pub proof fn lemma_round_trip(line: Seq<char>, n: nat)
    requires
        decode_line(line, n) is Ok,
    ensures
        decode_line(line, n)->Ok_0.len() == n,
        decode_line(hex_text(decode_line(line, n)->Ok_0), n) == decode_line(line, n),
{
    lemma_decode_tokens_len(tokens_of(line), n, line);
    let a = decode_line(line, n)->Ok_0;
    lemma_text_decodes(a);
}

/// Bytes written as hexadecimal text decode back to themselves at their own width.
pub proof fn lemma_text_decodes(a: Seq<u8>)
    ensures
        decode_line(hex_text(a), a.len()) == Ok::<Seq<u8>, PatchFault>(a),
{
    let s = hex_text(a);
    lemma_tokens_of_hex_text(a);
    lemma_decode_byte_texts(a, a.len(), s);
    assert(a + Seq::new(0, |i: int| 0u8) =~= a);
}

} // verus!
