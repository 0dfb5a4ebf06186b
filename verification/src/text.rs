//! Verified text handling: the decimal integer, boolean and decimal float
//! grammars used for coercion, decimal rendering, and splitting and joining
//! token text on single spaces.

use vstd::prelude::*;
use vstd::arithmetic::div_mod::lemma_fundamental_div_mod;

verus! {

// ---------------------------------------------------------------------------
// Decimal digits
// ---------------------------------------------------------------------------

/// A decimal digit.
pub open spec fn is_digit(c: char) -> bool {
    48 <= c as u32 <= 57
}

/// The numeric value of one decimal digit (zero for anything else).
pub open spec fn digit_val(c: char) -> nat {
    if is_digit(c) {
        (c as u32 - 48) as nat
    } else {
        0
    }
}

/// The decimal digit character for a value below ten.
pub open spec fn dec_digit_char(d: nat) -> char {
    if d == 0 {
        '0'
    } else if d == 1 {
        '1'
    } else if d == 2 {
        '2'
    } else if d == 3 {
        '3'
    } else if d == 4 {
        '4'
    } else if d == 5 {
        '5'
    } else if d == 6 {
        '6'
    } else if d == 7 {
        '7'
    } else if d == 8 {
        '8'
    } else {
        '9'
    }
}

pub open spec fn all_digits(s: Seq<char>) -> bool {
    forall|i: int| 0 <= i < s.len() ==> is_digit(#[trigger] s[i])
}

/// The value of a digit string read as a decimal number.
pub open spec fn dec_val(s: Seq<char>) -> nat
    decreases s.len(),
{
    if s.len() == 0 {
        0
    } else {
        dec_val(s.drop_last()) * 10 + digit_val(s.last())
    }
}

/// Reading more digits can only increase the decimal value.
pub proof fn lemma_dec_val_prefix_le(s: Seq<char>, k: int)
    requires
        0 <= k <= s.len(),
    ensures
        dec_val(s.take(k)) <= dec_val(s),
    decreases s.len() - k,
{
    if k == s.len() {
        assert(s.take(k) =~= s);
    } else {
        assert(s.take(k + 1).drop_last() =~= s.take(k));
        assert(dec_val(s.take(k + 1)) == dec_val(s.take(k)) * 10 + digit_val(s.take(k + 1).last()));
        lemma_dec_val_prefix_le(s, k + 1);
    }
}

// ---------------------------------------------------------------------------
// Unsigned and signed decimal integer grammars
// ---------------------------------------------------------------------------

/// The digits of an unsigned numeral: at most one leading `+` is allowed.
pub open spec fn strip_plus(s: Seq<char>) -> Seq<char> {
    if s.len() >= 1 && s[0] == '+' {
        s.subrange(1, s.len() as int)
    } else {
        s
    }
}

pub open spec fn is_uint_text(s: Seq<char>) -> bool {
    strip_plus(s).len() > 0 && all_digits(strip_plus(s))
}

pub open spec fn uint_val(s: Seq<char>) -> nat {
    dec_val(strip_plus(s))
}

/// What coercion to an unsigned integer yields: the numeral's value, if the
/// text is an unsigned decimal numeral whose value fits.
pub open spec fn u32_of_text(s: Seq<char>) -> Option<u32> {
    if is_uint_text(s) && uint_val(s) <= u32::MAX {
        Some(uint_val(s) as u32)
    } else {
        None
    }
}

pub open spec fn has_sign(s: Seq<char>) -> bool {
    s.len() >= 1 && (s[0] == '+' || s[0] == '-')
}

/// The digits of a signed numeral: at most one leading `+` or `-` is allowed.
pub open spec fn strip_sign(s: Seq<char>) -> Seq<char> {
    if has_sign(s) {
        s.subrange(1, s.len() as int)
    } else {
        s
    }
}

pub open spec fn is_int_text(s: Seq<char>) -> bool {
    strip_sign(s).len() > 0 && all_digits(strip_sign(s))
}

pub open spec fn int_val(s: Seq<char>) -> int {
    if s.len() >= 1 && s[0] == '-' {
        -(dec_val(strip_sign(s)) as int)
    } else {
        dec_val(strip_sign(s)) as int
    }
}

/// What coercion to a signed integer yields.
pub open spec fn i32_of_text(s: Seq<char>) -> Option<i32> {
    if is_int_text(s) && i32::MIN <= int_val(s) <= i32::MAX {
        Some(int_val(s) as i32)
    } else {
        None
    }
}

/// What coercion to a boolean yields: exactly `true` or `false`.
pub open spec fn bool_of_text(s: Seq<char>) -> Option<bool> {
    if s == "true"@ {
        Some(true)
    } else if s == "false"@ {
        Some(false)
    } else {
        None
    }
}

// ---------------------------------------------------------------------------
// Decimal float grammar
// ---------------------------------------------------------------------------

/// The decimal float grammar: an optional sign, then digits with at most one
/// decimal point among them and at least one digit. Float text is kept (and
/// rendered back) verbatim; this grammar only gates what is accepted.
pub open spec fn is_float_text(s: Seq<char>) -> bool {
    let m = strip_sign(s);
    &&& exists|i: int| 0 <= i < m.len() && is_digit(#[trigger] m[i])
    &&& forall|i: int| 0 <= i < m.len() ==> is_digit(#[trigger] m[i]) || m[i] == '.'
    &&& forall|i: int, j: int|
        #![trigger m[i], m[j]]
        0 <= i < j < m.len() ==> !(m[i] == '.' && m[j] == '.')
}

// ---------------------------------------------------------------------------
// Decimal rendering
// ---------------------------------------------------------------------------

/// The decimal numeral of an unsigned value, most significant digit first.
pub open spec fn u32_text(n: nat) -> Seq<char>
    decreases n,
{
    if n < 10 {
        seq![dec_digit_char(n)]
    } else {
        u32_text(n / 10).push(dec_digit_char(n % 10))
    }
}

/// The decimal numeral of a signed value: a `-` before the magnitude when
/// negative.
pub open spec fn i32_text(n: int) -> Seq<char> {
    if n < 0 {
        seq!['-'] + u32_text((-n) as nat)
    } else {
        u32_text(n as nat)
    }
}

pub open spec fn bool_text(b: bool) -> Seq<char> {
    if b {
        "true"@
    } else {
        "false"@
    }
}

/// The rendered numeral consists of digits and reads back as the value.
pub proof fn lemma_u32_text_digits(n: nat)
    ensures
        u32_text(n).len() >= 1,
        all_digits(u32_text(n)),
        dec_val(u32_text(n)) == n,
    decreases n,
{
    if n < 10 {
        let t = u32_text(n);
        assert(t == seq![dec_digit_char(n)]);
        assert(t.len() == 1);
        assert(t.last() == dec_digit_char(n));
        assert(t.drop_last() =~= Seq::<char>::empty());
        assert(dec_val(t.drop_last()) == 0);
        assert(dec_val(t) == dec_val(t.drop_last()) * 10 + digit_val(t.last()));
        assert(digit_val(dec_digit_char(n)) == n);
    } else {
        lemma_u32_text_digits(n / 10);
        let p = u32_text(n / 10);
        let c = dec_digit_char(n % 10);
        assert(u32_text(n) == p.push(c));
        assert(p.push(c).drop_last() =~= p);
        assert(p.push(c).last() == c);
        assert(digit_val(c) == n % 10);
        assert(dec_val(u32_text(n)) == dec_val(p) * 10 + n % 10);
        lemma_fundamental_div_mod(n as int, 10);
        assert(forall|i: int|
            0 <= i < p.push(c).len() ==> is_digit(#[trigger] p.push(c)[i]));
    }
}

/// Rendering an unsigned value and coercing the text back yields the value.
pub proof fn lemma_u32_round_trip(n: u32)
    ensures
        u32_of_text(u32_text(n as nat)) == Some(n),
{
    lemma_u32_text_digits(n as nat);
    let t = u32_text(n as nat);
    assert(is_digit(t[0]));
    assert(t[0] != '+');
    assert(strip_plus(t) == t);
}

/// Rendering a signed value and coercing the text back yields the value.
pub proof fn lemma_i32_round_trip(n: i32)
    ensures
        i32_of_text(i32_text(n as int)) == Some(n),
{
    if n >= 0 {
        lemma_u32_text_digits(n as nat);
        let t = u32_text(n as nat);
        assert(is_digit(t[0]));
        assert(strip_sign(t) == t);
        assert(int_val(t) == n);
    } else {
        let m = (-(n as int)) as nat;
        lemma_u32_text_digits(m);
        let t = seq!['-'] + u32_text(m);
        assert(t[0] == '-');
        assert(t.len() >= 2);
        assert(strip_sign(t) =~= u32_text(m));
        assert(int_val(t) == -(m as int));
        assert(int_val(t) == n as int);
    }
}

/// A name with every leading dash removed: the canonical argument name.
pub open spec fn strip_dashes(s: Seq<char>) -> Seq<char>
    decreases s.len(),
{
    if s.len() > 0 && s[0] == '-' {
        strip_dashes(s.subrange(1, s.len() as int))
    } else {
        s
    }
}

// ---------------------------------------------------------------------------
// Splitting on single spaces, and joining with single spaces
// ---------------------------------------------------------------------------

/// Text joined from parts with one space between neighbours.
pub open spec fn join_spaces(parts: Seq<Seq<char>>) -> Seq<char>
    decreases parts.len(),
{
    if parts.len() == 0 {
        Seq::empty()
    } else if parts.len() == 1 {
        parts[0]
    } else {
        parts[0] + seq![' '] + join_spaces(parts.drop_first())
    }
}

/// The index of the first space, or the length if there is none.
pub open spec fn first_space(s: Seq<char>) -> nat
    decreases s.len(),
{
    if s.len() == 0 {
        0
    } else if s[0] == ' ' {
        0
    } else {
        1 + first_space(s.drop_first())
    }
}

/// The pieces of `s` between its spaces, in order; splitting at every space.
pub open spec fn space_split(s: Seq<char>) -> Seq<Seq<char>>
    decreases s.len(),
{
    let i = first_space(s);
    if i >= s.len() {
        seq![s]
    } else {
        seq![s.subrange(0, i as int)] + space_split(s.subrange(i as int + 1, s.len() as int))
    }
}

/// `first_space` is pinned by what a scan observes: no space before `j`, and
/// a space at `j` unless `j` is the end.
pub proof fn lemma_first_space_at(s: Seq<char>, j: int)
    requires
        0 <= j <= s.len(),
        forall|k: int| 0 <= k < j ==> s[k] != ' ',
        j < s.len() ==> s[j] == ' ',
    ensures
        first_space(s) == j,
    decreases s.len(),
{
    if s.len() > 0 && s[0] != ' ' {
        assert(j != 0);
        assert forall|k: int| 0 <= k < j - 1 implies s.drop_first()[k] != ' ' by {
            assert(s.drop_first()[k] == s[k + 1]);
        }
        if j - 1 < s.drop_first().len() {
            assert(s.drop_first()[j - 1] == s[j]);
        }
        lemma_first_space_at(s.drop_first(), j - 1);
    }
}

/// Joining one more part appends one space and the part.
pub proof fn lemma_join_push(parts: Seq<Seq<char>>, y: Seq<char>)
    requires
        parts.len() >= 1,
    ensures
        join_spaces(parts.push(y)) == join_spaces(parts) + seq![' '] + y,
    decreases parts.len(),
{
    if parts.len() == 1 {
        assert(parts.push(y).drop_first() =~= seq![y]);
        assert(join_spaces(seq![y]) == y);
        assert(parts.push(y)[0] == parts[0]);
    } else {
        lemma_join_push(parts.drop_first(), y);
        assert(parts.push(y).drop_first() =~= parts.drop_first().push(y));
        assert(parts.push(y)[0] == parts[0]);
        assert(join_spaces(parts.push(y)) =~= join_spaces(parts) + seq![' '] + y);
    }
}

/// The views of a sequence of owned strings.
pub open spec fn seq_views(v: Seq<String>) -> Seq<Seq<char>> {
    v.map_values(|x: String| x@)
}

// ---------------------------------------------------------------------------
// Executable text operations
// ---------------------------------------------------------------------------

/// Compare two string slices by contents.
pub fn str_eq(a: &str, b: &str) -> (r: bool)
    ensures
        r == (a@ == b@),
{
    let sa: String = a.to_owned();
    let sb: String = b.to_owned();
    sa == sb
}

/// Parse an unsigned decimal numeral (optional leading `+`).
pub fn parse_u32(s: &str) -> (r: Option<u32>)
    ensures
        r == u32_of_text(s@),
{
    let len = s.unicode_len();
    let start: usize = if len >= 1 && s.get_char(0) == '+' {
        1
    } else {
        0
    };
    if start == len {
        assert(strip_plus(s@).len() == 0);
        return None;
    }
    let mut acc: u64 = 0;
    let mut i: usize = start;
    while i < len
        invariant
            start <= i <= len,
            len == s@.len(),
            start == 1 <==> (s@.len() >= 1 && s@[0] == '+'),
            start <= 1,
            start < len,
            acc <= u32::MAX,
            all_digits(s@.subrange(start as int, i as int)),
            acc == dec_val(s@.subrange(start as int, i as int)),
        decreases len - i,
    {
        let c = s.get_char(i);
        let cv = c as u32;
        if cv < 48 || cv > 57 {
            assert(!is_digit(s@[i as int]));
            assert(strip_plus(s@)[i - start] == s@[i as int]);
            assert(!is_uint_text(s@));
            return None;
        }
        proof {
            assert(s@.subrange(start as int, i + 1).drop_last() =~= s@.subrange(
                start as int,
                i as int,
            ));
            assert(s@.subrange(start as int, i + 1).last() == s@[i as int]);
        }
        acc = acc * 10 + ((cv - 48) as u64);
        assert(acc == dec_val(s@.subrange(start as int, i + 1)));
        if acc > 0xffff_ffffu64 {
            proof {
                if is_uint_text(s@) {
                    assert(strip_plus(s@) =~= s@.subrange(start as int, len as int));
                    assert(strip_plus(s@).take(i + 1 - start) =~= s@.subrange(
                        start as int,
                        i + 1,
                    ));
                    lemma_dec_val_prefix_le(strip_plus(s@), i + 1 - start);
                }
            }
            return None;
        }
        i += 1;
    }
    proof {
        assert(strip_plus(s@) =~= s@.subrange(start as int, len as int));
    }
    Some(acc as u32)
}

/// Parse a signed decimal numeral (optional leading `+` or `-`).
pub fn parse_i32(s: &str) -> (r: Option<i32>)
    ensures
        r == i32_of_text(s@),
{
    let len = s.unicode_len();
    let mut neg = false;
    let mut start: usize = 0;
    if len >= 1 {
        let c0 = s.get_char(0);
        if c0 == '-' {
            neg = true;
            start = 1;
        } else if c0 == '+' {
            start = 1;
        }
    }
    if start == len {
        assert(strip_sign(s@).len() == 0);
        return None;
    }
    let limit: u64 = if neg {
        0x8000_0000
    } else {
        0x7fff_ffff
    };
    let mut acc: u64 = 0;
    let mut i: usize = start;
    while i < len
        invariant
            start <= i <= len,
            len == s@.len(),
            start == 1 <==> has_sign(s@),
            start <= 1,
            start < len,
            neg <==> (s@.len() >= 1 && s@[0] == '-'),
            limit == (if neg {
                0x8000_0000u64
            } else {
                0x7fff_ffffu64
            }),
            acc <= limit,
            all_digits(s@.subrange(start as int, i as int)),
            acc == dec_val(s@.subrange(start as int, i as int)),
        decreases len - i,
    {
        let c = s.get_char(i);
        let cv = c as u32;
        if cv < 48 || cv > 57 {
            assert(!is_digit(s@[i as int]));
            assert(strip_sign(s@)[i - start] == s@[i as int]);
            assert(!is_int_text(s@));
            return None;
        }
        proof {
            assert(s@.subrange(start as int, i + 1).drop_last() =~= s@.subrange(
                start as int,
                i as int,
            ));
            assert(s@.subrange(start as int, i + 1).last() == s@[i as int]);
        }
        acc = acc * 10 + ((cv - 48) as u64);
        assert(acc == dec_val(s@.subrange(start as int, i + 1)));
        if acc > limit {
            proof {
                if is_int_text(s@) {
                    assert(strip_sign(s@) =~= s@.subrange(start as int, len as int));
                    assert(strip_sign(s@).take(i + 1 - start) =~= s@.subrange(
                        start as int,
                        i + 1,
                    ));
                    lemma_dec_val_prefix_le(strip_sign(s@), i + 1 - start);
                }
            }
            return None;
        }
        i += 1;
    }
    proof {
        assert(strip_sign(s@) =~= s@.subrange(start as int, len as int));
    }
    if neg {
        Some((-(acc as i64)) as i32)
    } else {
        Some(acc as i32)
    }
}

/// Parse a boolean: exactly `true` or `false`.
pub fn parse_bool(s: &str) -> (r: Option<bool>)
    ensures
        r == bool_of_text(s@),
{
    proof {
        reveal_strlit("true");
        reveal_strlit("false");
    }
    if str_eq(s, "true") {
        Some(true)
    } else if str_eq(s, "false") {
        Some(false)
    } else {
        None
    }
}

/// Check text against the decimal float grammar.
pub fn check_float(s: &str) -> (r: bool)
    ensures
        r == is_float_text(s@),
{
    let len = s.unicode_len();
    let mut start: usize = 0;
    if len >= 1 {
        let c0 = s.get_char(0);
        if c0 == '+' || c0 == '-' {
            start = 1;
        }
    }
    let ghost m = strip_sign(s@);
    proof {
        assert(m =~= s@.subrange(start as int, len as int));
    }
    let mut seen_digit = false;
    let mut seen_dot = false;
    let mut i: usize = start;
    while i < len
        invariant
            start <= i <= len,
            len == s@.len(),
            m == s@.subrange(start as int, len as int),
            m == strip_sign(s@),
            seen_digit <==> exists|k: int| 0 <= k < i - start && is_digit(#[trigger] m[k]),
            seen_dot <==> exists|k: int| 0 <= k < i - start && #[trigger] m[k] == '.',
            forall|k: int| 0 <= k < i - start ==> is_digit(#[trigger] m[k]) || m[k] == '.',
            forall|k1: int, k2: int|
                #![trigger m[k1], m[k2]]
                0 <= k1 < k2 < i - start ==> !(m[k1] == '.' && m[k2] == '.'),
        decreases len - i,
    {
        let c = s.get_char(i);
        let cv = c as u32;
        assert(m[i - start] == s@[i as int]);
        if 48 <= cv && cv <= 57 {
            seen_digit = true;
        } else if c == '.' {
            if seen_dot {
                assert(!is_float_text(s@));
                return false;
            }
            seen_dot = true;
        } else {
            assert(!(is_digit(m[i - start]) || m[i - start] == '.'));
            assert(!is_float_text(s@));
            return false;
        }
        i += 1;
    }
    seen_digit
}

/// Render an unsigned value as its decimal numeral.
fn digit_str(d: u32) -> (r: &'static str)
    requires
        d < 10,
    ensures
        r@ == seq![dec_digit_char(d as nat)],
{
    if d == 0 {
        proof { reveal_strlit("0"); }
        assert("0"@ =~= seq![dec_digit_char(0)]);
        "0"
    } else if d == 1 {
        proof { reveal_strlit("1"); }
        assert("1"@ =~= seq![dec_digit_char(1)]);
        "1"
    } else if d == 2 {
        proof { reveal_strlit("2"); }
        assert("2"@ =~= seq![dec_digit_char(2)]);
        "2"
    } else if d == 3 {
        proof { reveal_strlit("3"); }
        assert("3"@ =~= seq![dec_digit_char(3)]);
        "3"
    } else if d == 4 {
        proof { reveal_strlit("4"); }
        assert("4"@ =~= seq![dec_digit_char(4)]);
        "4"
    } else if d == 5 {
        proof { reveal_strlit("5"); }
        assert("5"@ =~= seq![dec_digit_char(5)]);
        "5"
    } else if d == 6 {
        proof { reveal_strlit("6"); }
        assert("6"@ =~= seq![dec_digit_char(6)]);
        "6"
    } else if d == 7 {
        proof { reveal_strlit("7"); }
        assert("7"@ =~= seq![dec_digit_char(7)]);
        "7"
    } else if d == 8 {
        proof { reveal_strlit("8"); }
        assert("8"@ =~= seq![dec_digit_char(8)]);
        "8"
    } else {
        proof { reveal_strlit("9"); }
        assert("9"@ =~= seq![dec_digit_char(9)]);
        "9"
    }
}

pub fn render_u32(n: u32) -> (r: String)
    ensures
        r@ == u32_text(n as nat),
    decreases n,
{
    if n < 10 {
        let r = digit_str(n).to_owned();
        assert(r@ =~= u32_text(n as nat));
        r
    } else {
        let mut r = render_u32(n / 10);
        r.append(digit_str(n % 10));
        assert(r@ =~= u32_text(n as nat));
        r
    }
}

/// Render a signed value as its decimal numeral.
pub fn render_i32(n: i32) -> (r: String)
    ensures
        r@ == i32_text(n as int),
{
    if n >= 0 {
        render_u32(n as u32)
    } else {
        let mag: u32 = (-(n as i64)) as u32;
        let mut r: String = "-".to_owned();
        r.append(render_u32(mag).as_str());
        proof {
            reveal_strlit("-");
            assert("-"@ =~= seq!['-']);
            assert(r@ =~= i32_text(n as int));
        }
        r
    }
}

pub fn render_bool(b: bool) -> (r: String)
    ensures
        r@ == bool_text(b),
{
    if b {
        "true".to_owned()
    } else {
        "false".to_owned()
    }
}

/// Split text at every single space.
pub fn split_spaces(s: &str) -> (r: Vec<String>)
    ensures
        seq_views(r@) == space_split(s@),
{
    let len = s.unicode_len();
    let mut parts: Vec<String> = Vec::new();
    let mut piece_start: usize = 0;
    let mut i: usize = 0;
    proof {
        assert(s@.subrange(0, len as int) =~= s@);
        assert(seq_views(parts@) =~= Seq::<Seq<char>>::empty());
        assert(seq_views(parts@) + space_split(s@) =~= space_split(s@));
    }
    while i < len
        invariant
            piece_start <= i <= len,
            len == s@.len(),
            forall|k: int| piece_start <= k < i ==> s@[k] != ' ',
            space_split(s@) == seq_views(parts@) + space_split(
                s@.subrange(piece_start as int, len as int),
            ),
        decreases len - i,
    {
        let c = s.get_char(i);
        if c == ' ' {
            let piece: String = s.substring_char(piece_start, i).to_owned();
            proof {
                let rem = s@.subrange(piece_start as int, len as int);
                lemma_first_space_at(rem, i - piece_start);
                assert(rem.subrange(0, i - piece_start) =~= s@.subrange(
                    piece_start as int,
                    i as int,
                ));
                assert(rem.subrange(i - piece_start + 1, rem.len() as int) =~= s@.subrange(
                    i + 1,
                    len as int,
                ));
                assert(space_split(rem) == seq![piece@] + space_split(
                    s@.subrange(i + 1, len as int),
                ));
                assert(seq_views(parts@.push(piece)) =~= seq_views(parts@).push(piece@));
                assert(seq_views(parts@) + space_split(rem) =~= seq_views(parts@.push(piece))
                    + space_split(s@.subrange(i + 1, len as int)));
            }
            parts.push(piece);
            piece_start = i + 1;
        }
        i += 1;
    }
    let piece: String = s.substring_char(piece_start, len).to_owned();
    proof {
        let rem = s@.subrange(piece_start as int, len as int);
        lemma_first_space_at(rem, len - piece_start);
        assert(space_split(rem) == seq![rem]);
        assert(rem =~= piece@);
        assert(seq_views(parts@.push(piece)) =~= seq_views(parts@).push(piece@));
        assert(seq_views(parts@) + space_split(rem) =~= seq_views(parts@.push(piece)));
    }
    parts.push(piece);
    parts
}

/// Join `n` tokens starting at `start` with single spaces.
pub fn concat_tokens(tokens: &Vec<String>, start: usize, n: usize) -> (r: String)
    requires
        1 <= n,
        start + n <= tokens@.len(),
    ensures
        r@ == join_spaces(seq_views(tokens@).subrange(start as int, start + n)),
{
    let tlen: usize = tokens.len();
    let mut r: String = tokens[start].clone();
    proof {
        assert(seq_views(tokens@).subrange(start as int, start + 1) =~= seq![
            tokens@[start as int]@,
        ]);
    }
    let mut k: usize = 1;
    while k < n
        invariant
            1 <= k <= n,
            start + n <= tokens@.len(),
            tlen == tokens@.len(),
            r@ == join_spaces(seq_views(tokens@).subrange(start as int, start + k)),
        decreases n - k,
    {
        r.append(" ");
        r.append(tokens[start + k].as_str());
        proof {
            reveal_strlit(" ");
            assert(" "@ =~= seq![' ']);
            let sub = seq_views(tokens@).subrange(start as int, start + k);
            lemma_join_push(sub, tokens@[start + k]@);
            assert(seq_views(tokens@).subrange(start as int, start + k + 1) =~= sub.push(
                tokens@[start + k]@,
            ));
        }
        k += 1;
    }
    r
}

} // verus!
