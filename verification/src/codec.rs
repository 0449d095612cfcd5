use vstd::prelude::*;
use crate::ledger::HistoryEntry;
use crate::text::{chars_to_string, string_to_chars};

verus! {

// The ledger is persisted as a human-readable structured text: a bracketed
// list, one record per line, each record holding the picked path (quoted,
// with quotes and backslashes escaped) and the instant of the pick in
// microseconds since the Unix epoch:
//
//   [
//     {"path": "a/b.mp4", "picked_at": 170},
//     {"path": "c.mkv", "picked_at": 42}
//   ]
//
// The encoder below emits exactly this shape; the parser reads it back, and
// the round-trip lemma proves that every ledger survives the trip
// unchanged.
/// The mathematical content of a ledger entry: the path's characters and
/// the pick instant.
pub open spec fn models(l: Seq<HistoryEntry>) -> Seq<(Seq<char>, int)> {
    l.map_values(|e: HistoryEntry| (e.path@, e.picked_at as int))
}

/// How one character of a path is written inside the quotes: quotes and
/// backslashes get a backslash in front, everything else stands as itself.
pub open spec fn esc_char(c: char) -> Seq<char> {
    if c == '"' || c == '\\' {
        seq!['\\', c]
    } else {
        seq![c]
    }
}

/// A path as written inside the quotes.
pub open spec fn esc(s: Seq<char>) -> Seq<char>
    decreases s.len(),
{
    if s.len() == 0 {
        Seq::empty()
    } else {
        esc_char(s[0]) + esc(s.drop_first())
    }
}

/// The digit character for a value from 0 to 9.
pub open spec fn digit_char(d: int) -> char {
    if d == 0 {
        '0'
    } else if d == 1 {
        '1'
    } else if d == 2 {
        '2'
    } else if d == 3 {
        '3'
    } else if d == 4 {
        '4'
    } else if d == 5 {
        '5'
    } else if d == 6 {
        '6'
    } else if d == 7 {
        '7'
    } else if d == 8 {
        '8'
    } else {
        '9'
    }
}

/// The value of a digit character; anything else counts 0.
pub open spec fn digit_val(c: char) -> int {
    if c == '0' {
        0
    } else if c == '1' {
        1
    } else if c == '2' {
        2
    } else if c == '3' {
        3
    } else if c == '4' {
        4
    } else if c == '5' {
        5
    } else if c == '6' {
        6
    } else if c == '7' {
        7
    } else if c == '8' {
        8
    } else {
        9
    }
}

/// Whether `c` is a decimal digit.
pub open spec fn is_digit(c: char) -> bool {
    c == '0' || c == '1' || c == '2' || c == '3' || c == '4' || c == '5' || c == '6' || c == '7'
        || c == '8' || c == '9'
}

/// A non-negative value in decimal, most significant digit first, no
/// leading zeros.
pub open spec fn dec_nat(n: int) -> Seq<char>
    decreases n,
{
    if n <= 9 {
        seq![digit_char(n)]
    } else {
        dec_nat(n / 10).push(digit_char(n % 10))
    }
}

/// A value in decimal, with a leading minus sign when negative.
pub open spec fn dec_int(n: int) -> Seq<char> {
    if n < 0 {
        seq!['-'] + dec_nat(-n)
    } else {
        dec_nat(n)
    }
}

/// The text standing before the path characters of a record:
/// two spaces of indent, the opening brace, the quoted key `path`, a colon
/// and the opening quote of the value.
pub open spec fn entry_prefix() -> Seq<char> {
    seq![' ', ' ', '{', '"', 'p', 'a', 't', 'h', '"', ':', ' ', '"']
}

/// The text between the path and its instant: the closing quote, a comma,
/// the quoted key `picked_at` and a colon. The leading quote of this piece
/// is the one that closes the path value.
pub open spec fn entry_mid() -> Seq<char> {
    seq!['"', ',', ' ', '"', 'p', 'i', 'c', 'k', 'e', 'd', '_', 'a', 't', '"', ':', ' ']
}

/// One persisted record.
pub open spec fn spec_encode_entry(p: Seq<char>, t: int) -> Seq<char> {
    entry_prefix() + esc(p) + entry_mid() + dec_int(t) + seq!['}']
}

/// The records, separated by a comma and a line break.
pub open spec fn spec_encode_entries(m: Seq<(Seq<char>, int)>) -> Seq<char>
    decreases m.len(),
{
    if m.len() == 0 {
        Seq::empty()
    } else if m.len() == 1 {
        spec_encode_entry(m[0].0, m[0].1)
    } else {
        spec_encode_entry(m[0].0, m[0].1) + seq![',', '\n'] + spec_encode_entries(m.drop_first())
    }
}

/// A whole persisted ledger: an empty ledger is the empty bracket pair, a
/// non-empty one lists its records between the brackets.
pub open spec fn spec_encode_ledger(m: Seq<(Seq<char>, int)>) -> Seq<char> {
    if m.len() == 0 {
        seq!['[', ']']
    } else {
        seq!['[', '\n'] + spec_encode_entries(m) + seq!['\n', ']']
    }
}

/// Escaping distributes over appending one character.
proof fn lemma_esc_push(s: Seq<char>, c: char)
    ensures
        esc(s.push(c)) == esc(s) + esc_char(c),
    decreases s.len(),
{
    if s.len() == 0 {
        assert(s.push(c)[0] == c);
        assert(s.push(c).drop_first() =~= Seq::<char>::empty());
        assert(esc(Seq::<char>::empty()) == Seq::<char>::empty());
        assert(esc(s.push(c)) == esc_char(c) + Seq::<char>::empty());
        assert(esc_char(c) + Seq::<char>::empty() =~= esc_char(c));
        assert(esc(s) + esc_char(c) =~= esc_char(c));
    } else {
        assert(s.push(c)[0] == s[0]);
        assert(s.push(c).drop_first() =~= s.drop_first().push(c));
        lemma_esc_push(s.drop_first(), c);
        assert(esc(s.push(c)) == esc_char(s[0]) + (esc(s.drop_first()) + esc_char(c)));
        assert(esc_char(s[0]) + (esc(s.drop_first()) + esc_char(c)) =~= (esc_char(s[0]) + esc(
            s.drop_first(),
        )) + esc_char(c));
    }
}

/// Appending one record to a non-empty ledger appends a separator and the
/// record's text.
proof fn lemma_encode_entries_push(m: Seq<(Seq<char>, int)>, x: (Seq<char>, int))
    requires
        m.len() >= 1,
    ensures
        spec_encode_entries(m.push(x)) == spec_encode_entries(m) + seq![',', '\n']
            + spec_encode_entry(x.0, x.1),
    decreases m.len(),
{
    if m.len() == 1 {
        assert(m.push(x)[0] == m[0]);
        assert(m.push(x).drop_first() =~= seq![x]);
        assert(spec_encode_entries(seq![x]) == spec_encode_entry(x.0, x.1));
    } else {
        assert(m.push(x)[0] == m[0]);
        assert(m.push(x).drop_first() =~= m.drop_first().push(x));
        lemma_encode_entries_push(m.drop_first(), x);
        assert(spec_encode_entries(m.push(x)) == spec_encode_entry(m[0].0, m[0].1) + seq![',', '\n']
            + (spec_encode_entries(m.drop_first()) + seq![',', '\n'] + spec_encode_entry(
            x.0,
            x.1,
        )));
        assert(spec_encode_entry(m[0].0, m[0].1) + seq![',', '\n'] + (spec_encode_entries(
            m.drop_first(),
        ) + seq![',', '\n'] + spec_encode_entry(x.0, x.1)) =~= (spec_encode_entry(m[0].0, m[0].1)
            + seq![',', '\n'] + spec_encode_entries(m.drop_first())) + seq![',', '\n']
            + spec_encode_entry(x.0, x.1));
    }
}

/// The tail of `entry_mid`, after the quote that closes the path value:
/// what remains to be matched once the string parser has consumed that
/// quote.
pub open spec fn entry_mid_tail() -> Seq<char> {
    seq![',', ' ', '"', 'p', 'i', 'c', 'k', 'e', 'd', '_', 'a', 't', '"', ':', ' ']
}

/// Consumes the exact text `lit` from the front of `s`.
pub open spec fn spec_expect(s: Seq<char>, lit: Seq<char>) -> Option<Seq<char>> {
    if lit.len() <= s.len() && s.subrange(0, lit.len() as int) == lit {
        Some(s.subrange(lit.len() as int, s.len() as int))
    } else {
        None
    }
}

/// Reads the escaped body of a quoted string, up to and past its closing
/// quote: a backslash takes the next character literally (only a quote or a
/// backslash may follow one), an unescaped quote ends the string, and every
/// other character stands for itself.
pub open spec fn spec_parse_string(s: Seq<char>) -> Option<(Seq<char>, Seq<char>)>
    decreases s.len(),
{
    if s.len() == 0 {
        None
    } else if s[0] == '"' {
        Some((Seq::empty(), s.drop_first()))
    } else if s[0] == '\\' {
        if s.len() >= 2 && (s[1] == '"' || s[1] == '\\') {
            match spec_parse_string(s.subrange(2, s.len() as int)) {
                Some(pr) => Some((seq![s[1]] + pr.0, pr.1)),
                None => None,
            }
        } else {
            None
        }
    } else {
        match spec_parse_string(s.drop_first()) {
            Some(pr) => Some((seq![s[0]] + pr.0, pr.1)),
            None => None,
        }
    }
}

/// Splits the longest run of leading digits from what follows.
pub open spec fn spec_parse_digits(s: Seq<char>) -> (Seq<char>, Seq<char>)
    decreases s.len(),
{
    if s.len() == 0 || !is_digit(s[0]) {
        (Seq::empty(), s)
    } else {
        let pr = spec_parse_digits(s.drop_first());
        (seq![s[0]] + pr.0, pr.1)
    }
}

/// The value of a run of digits, most significant first.
pub open spec fn digits_val(d: Seq<char>) -> int
    decreases d.len(),
{
    if d.len() == 0 {
        0
    } else {
        digits_val(d.subrange(0, d.len() - 1)) * 10 + digit_val(d[d.len() - 1])
    }
}

/// Reads a decimal integer: an optional minus sign, then at least one and
/// at most nineteen digits, with a value that a 64-bit signed integer can
/// hold; anything else fails.
pub open spec fn spec_parse_int(s: Seq<char>) -> Option<(int, Seq<char>)> {
    if s.len() >= 1 && s[0] == '-' {
        let pr = spec_parse_digits(s.drop_first());
        if pr.0.len() == 0 || pr.0.len() > 19 {
            None
        } else if digits_val(pr.0) > 0x8000_0000_0000_0000 {
            None
        } else {
            Some((-digits_val(pr.0), pr.1))
        }
    } else {
        let pr = spec_parse_digits(s);
        if pr.0.len() == 0 || pr.0.len() > 19 {
            None
        } else if digits_val(pr.0) > 0x7fff_ffff_ffff_ffff {
            None
        } else {
            Some((digits_val(pr.0), pr.1))
        }
    }
}

/// Reads one record: the fixed key text, the quoted escaped path, the fixed
/// middle text and the instant, each in its place.
pub open spec fn spec_parse_entry(s: Seq<char>) -> Option<((Seq<char>, int), Seq<char>)> {
    match spec_expect(s, entry_prefix()) {
        None => None,
        Some(s1) => match spec_parse_string(s1) {
            None => None,
            Some(ps) => match spec_expect(ps.1, entry_mid_tail()) {
                None => None,
                Some(s2) => match spec_parse_int(s2) {
                    None => None,
                    Some(pi) => match spec_expect(pi.1, seq!['}']) {
                        None => None,
                        Some(s3) => Some(((ps.0, pi.0), s3)),
                    },
                },
            },
        },
    }
}

/// Reads one record after another as long as a comma and line break follow.
pub open spec fn spec_parse_entries(s: Seq<char>) -> Option<
    (Seq<(Seq<char>, int)>, Seq<char>),
>
    decreases s.len(),
{
    match spec_parse_entry(s) {
        None => None,
        Some(pe) => {
            let r = pe.1;
            if r.len() >= 2 && r[0] == ',' && r[1] == '\n' {
                let r2 = r.subrange(2, r.len() as int);
                if r2.len() < s.len() {
                    match spec_parse_entries(r2) {
                        None => None,
                        Some(pes) => Some((seq![pe.0] + pes.0, pes.1)),
                    }
                } else {
                    None
                }
            } else {
                Some((seq![pe.0], r))
            }
        },
    }
}

/// Reads a whole persisted ledger: the empty bracket pair, or the records
/// between a bracket line and a closing bracket line.
pub open spec fn spec_parse_ledger(s: Seq<char>) -> Option<Seq<(Seq<char>, int)>> {
    if s == seq!['[', ']'] {
        Some(Seq::empty())
    } else {
        match spec_expect(s, seq!['[', '\n']) {
            None => None,
            Some(s1) => match spec_parse_entries(s1) {
                None => None,
                Some(pes) => if pes.1 == seq!['\n', ']'] {
                    Some(pes.0)
                } else {
                    None
                },
            },
        }
    }
}

/// Every instant of the model fits a 64-bit signed integer; true of the
/// model of every ledger the library builds.
pub open spec fn wf_model(m: Seq<(Seq<char>, int)>) -> bool {
    forall|k: int|
        0 <= k < m.len() ==> -0x8000_0000_0000_0000 <= (#[trigger] m[k]).1
            <= 0x7fff_ffff_ffff_ffff
}

/// Ten to the power `k`.
pub open spec fn pow10(k: int) -> int
    decreases k,
{
    if k <= 0 {
        1
    } else {
        10 * pow10(k - 1)
    }
}

/// Consuming a literal off the front of a text that starts with it leaves
/// exactly what follows.
proof fn lemma_expect_inv(lit: Seq<char>, rest: Seq<char>)
    ensures
        spec_expect(lit + rest, lit) == Some(rest),
{
    assert((lit + rest).subrange(0, lit.len() as int) =~= lit);
    assert((lit + rest).subrange(lit.len() as int, (lit + rest).len() as int) =~= rest);
}

/// The string parser undoes the escaper: reading the escaped path, its
/// closing quote and anything after yields exactly the path and that rest.
proof fn lemma_parse_string_inv(p: Seq<char>, rest: Seq<char>)
    ensures
        spec_parse_string(esc(p) + seq!['"'] + rest) == Some((p, rest)),
    decreases p.len(),
{
    let s = esc(p) + seq!['"'] + rest;
    if p.len() == 0 {
        assert(esc(p) == Seq::<char>::empty());
        assert(s =~= seq!['"'] + rest);
        assert(s[0] == '"');
        assert(s.drop_first() =~= rest);
        assert(Seq::<char>::empty() =~= p);
    } else {
        let c = p[0];
        let ptail = p.drop_first();
        assert(esc(p) == esc_char(c) + esc(ptail));
        lemma_parse_string_inv(ptail, rest);
        let stail = esc(ptail) + seq!['"'] + rest;
        if c == '"' || c == '\\' {
            assert(esc_char(c) == seq!['\\', c]);
            assert(s =~= seq!['\\', c] + stail);
            assert(s[0] == '\\');
            assert(s.len() >= 2);
            assert(s[1] == c);
            assert(s.subrange(2, s.len() as int) =~= stail);
            assert(seq![c] + ptail =~= p);
        } else {
            assert(esc_char(c) == seq![c]);
            assert(s =~= seq![c] + stail);
            assert(s[0] == c);
            assert(s.drop_first() =~= stail);
            assert(seq![c] + ptail =~= p);
        }
    }
}

/// A decimal rendering is made of digits, at least one.
proof fn lemma_dec_nat_digits(n: int)
    requires
        n >= 0,
    ensures
        dec_nat(n).len() >= 1,
        forall|k: int| 0 <= k < dec_nat(n).len() ==> is_digit(#[trigger] dec_nat(n)[k]),
    decreases n,
{
    if n > 9 {
        lemma_dec_nat_digits(n / 10);
    }
}

/// A value below ten to the `k` takes at most `k` digits.
proof fn lemma_dec_nat_len(n: int, k: int)
    requires
        n >= 0,
        k >= 1,
        n < pow10(k),
    ensures
        1 <= dec_nat(n).len() <= k,
    decreases n,
{
    if n > 9 {
        assert(k >= 2) by {
            if k == 1 {
                assert(pow10(0) == 1);
                assert(pow10(1) == 10);
            }
        }
        assert(pow10(k) == 10 * pow10(k - 1));
        vstd::arithmetic::div_mod::lemma_multiply_divide_lt(n, 10, pow10(k - 1));
        lemma_dec_nat_len(n / 10, k - 1);
    }
}

/// Reading back a decimal rendering gives the value it was made from.
proof fn lemma_dec_nat_val(n: int)
    requires
        n >= 0,
    ensures
        digits_val(dec_nat(n)) == n,
    decreases n,
{
    if n <= 9 {
        let d = dec_nat(n);
        assert(d.len() == 1);
        assert(d.subrange(0, 0) =~= Seq::<char>::empty());
        assert(digits_val(Seq::<char>::empty()) == 0);
        assert(d[0] == digit_char(n));
        assert(digit_val(digit_char(n)) == n);
        assert(digits_val(d) == digits_val(d.subrange(0, 0)) * 10 + digit_val(d[0]));
    } else {
        lemma_dec_nat_val(n / 10);
        let front = dec_nat(n / 10);
        let d = dec_nat(n);
        assert(d == front.push(digit_char(n % 10)));
        assert(d.subrange(0, d.len() - 1) =~= front);
        assert(d[d.len() - 1] == digit_char(n % 10));
        assert(0 <= n % 10 <= 9);
        assert(digit_val(digit_char(n % 10)) == n % 10);
        vstd::arithmetic::div_mod::lemma_fundamental_div_mod(n, 10);
    }
}

/// The digit parser takes exactly a run of digits when what follows starts
/// with no digit.
pub(crate) proof fn lemma_parse_digits_inv(d: Seq<char>, rest: Seq<char>)
    requires
        d.len() >= 1,
        forall|k: int| 0 <= k < d.len() ==> is_digit(#[trigger] d[k]),
        rest.len() == 0 || !is_digit(rest[0]),
    ensures
        spec_parse_digits(d + rest) == (d, rest),
    decreases d.len(),
{
    let s = d + rest;
    assert(s[0] == d[0]);
    assert(is_digit(s[0]));
    if d.len() == 1 {
        assert(s.drop_first() =~= rest);
        assert(spec_parse_digits(rest) == (Seq::<char>::empty(), rest));
        assert(seq![s[0]] + Seq::<char>::empty() =~= d);
    } else {
        assert(s.drop_first() =~= d.drop_first() + rest);
        lemma_parse_digits_inv(d.drop_first(), rest);
        assert(seq![s[0]] + d.drop_first() =~= d);
    }
}

/// The integer parser undoes the decimal rendering of any 64-bit value
/// when what follows starts with no digit.
proof fn lemma_parse_int_inv(t: int, rest: Seq<char>)
    requires
        -0x8000_0000_0000_0000 <= t <= 0x7fff_ffff_ffff_ffff,
        rest.len() == 0 || !is_digit(rest[0]),
    ensures
        spec_parse_int(dec_int(t) + rest) == Some((t, rest)),
{
    assert(pow10(19) == 10_000_000_000_000_000_000) by {
        reveal_with_fuel(pow10, 21);
    }
    if t >= 0 {
        let d = dec_nat(t);
        lemma_dec_nat_digits(t);
        lemma_dec_nat_len(t, 19);
        lemma_dec_nat_val(t);
        lemma_parse_digits_inv(d, rest);
        let s = d + rest;
        assert(s[0] == d[0]);
        assert(is_digit(s[0]));
        assert(s[0] != '-');
    } else {
        let m = -t;
        let d = dec_nat(m);
        lemma_dec_nat_digits(m);
        lemma_dec_nat_len(m, 19);
        lemma_dec_nat_val(m);
        lemma_parse_digits_inv(d, rest);
        let s = dec_int(t) + rest;
        assert(dec_int(t) == seq!['-'] + d);
        assert(s =~= seq!['-'] + (d + rest));
        assert(s[0] == '-');
        assert(s.len() >= 1);
        assert(s.drop_first() =~= d + rest);
    }
}

/// The record parser undoes the record encoder, whatever follows the
/// record.
proof fn lemma_parse_entry_inv(p: Seq<char>, t: int, rest: Seq<char>)
    requires
        -0x8000_0000_0000_0000 <= t <= 0x7fff_ffff_ffff_ffff,
    ensures
        spec_parse_entry(spec_encode_entry(p, t) + rest) == Some(((p, t), rest)),
{
    let s = spec_encode_entry(p, t) + rest;
    let r4 = seq!['}'] + rest;
    let r3 = dec_int(t) + r4;
    let r2 = entry_mid_tail() + r3;
    let r1 = esc(p) + seq!['"'] + r2;
    assert(entry_mid() =~= seq!['"'] + entry_mid_tail());
    assert(s =~= entry_prefix() + r1);
    lemma_expect_inv(entry_prefix(), r1);
    assert(spec_expect(s, entry_prefix()) == Some(r1));
    lemma_parse_string_inv(p, r2);
    assert(r2 =~= entry_mid_tail() + r3);
    lemma_expect_inv(entry_mid_tail(), r3);
    assert(r4[0] == '}');
    assert(!is_digit('}'));
    lemma_parse_int_inv(t, r4);
    assert(r4 =~= seq!['}'] + rest);
    lemma_expect_inv(seq!['}'], rest);
}

/// A record's text is never empty.
proof fn lemma_encode_entry_len(p: Seq<char>, t: int)
    ensures
        spec_encode_entry(p, t).len() >= 12,
{
    assert(entry_prefix().len() == 12);
}

/// The record-list parser undoes the record-list encoder when the closing
/// bracket line follows.
proof fn lemma_parse_entries_inv(m: Seq<(Seq<char>, int)>)
    requires
        m.len() >= 1,
        wf_model(m),
    ensures
        spec_parse_entries(spec_encode_entries(m) + seq!['\n', ']']) == Some(
            (m, seq!['\n', ']']),
        ),
    decreases m.len(),
{
    let tail = seq!['\n', ']'];
    let s = spec_encode_entries(m) + tail;
    if m.len() == 1 {
        assert(spec_encode_entries(m) == spec_encode_entry(m[0].0, m[0].1));
        lemma_parse_entry_inv(m[0].0, m[0].1, tail);
        assert(tail[0] == '\n');
        assert(seq![m[0]] =~= m);
    } else {
        let rest_entries = spec_encode_entries(m.drop_first()) + tail;
        let r = seq![',', '\n'] + rest_entries;
        assert(s =~= spec_encode_entry(m[0].0, m[0].1) + r);
        lemma_parse_entry_inv(m[0].0, m[0].1, r);
        assert(r[0] == ',');
        assert(r[1] == '\n');
        assert(r.len() >= 2);
        assert(r.subrange(2, r.len() as int) =~= rest_entries);
        assert(wf_model(m.drop_first()));
        lemma_parse_entries_inv(m.drop_first());
        lemma_encode_entry_len(m[0].0, m[0].1);
        assert(s.len() >= rest_entries.len() + 14);
        assert(rest_entries.len() < s.len());
        assert(seq![m[0]] + m.drop_first() =~= m);
    }
}

/// Round trip: parsing the persisted text of any ledger yields exactly
/// that ledger, record for record.
pub proof fn lemma_codec_round_trip(m: Seq<(Seq<char>, int)>)
    requires
        wf_model(m),
    ensures
        spec_parse_ledger(spec_encode_ledger(m)) == Some(m),
{
    if m.len() == 0 {
        assert(spec_encode_ledger(m) == seq!['[', ']']);
    } else {
        let body = spec_encode_entries(m) + seq!['\n', ']'];
        let s = spec_encode_ledger(m);
        assert(s =~= seq!['[', '\n'] + body);
        lemma_encode_entry_len(m[0].0, m[0].1);
        assert(spec_encode_entries(m).len() >= 12);
        assert(s.len() >= 16);
        assert(s != seq!['[', ']']) by {
            assert(s.len() != 2);
        }
        lemma_expect_inv(seq!['[', '\n'], body);
        lemma_parse_entries_inv(m);
    }
}

/// The model of every ledger is well formed: its instants are 64-bit
/// values.
proof fn lemma_models_wf(l: Seq<HistoryEntry>)
    ensures
        wf_model(models(l)),
        models(l).len() == l.len(),
{
}

/// Prefixing already-read characters onto the outcome of reading the rest
/// of a quoted string.
pub(crate) open spec fn prepend_parsed(acc: Seq<char>, r: Option<(Seq<char>, Seq<char>)>) -> Option<
    (Seq<char>, Seq<char>),
> {
    match r {
        Some(pr) => Some((acc + pr.0, pr.1)),
        None => None,
    }
}

/// Prefixing already-read records onto the outcome of reading the rest of
/// a record list.
pub(crate) open spec fn prepend_entries(
    acc: Seq<(Seq<char>, int)>,
    r: Option<(Seq<(Seq<char>, int)>, Seq<char>)>,
) -> Option<(Seq<(Seq<char>, int)>, Seq<char>)> {
    match r {
        Some(pr) => Some((acc + pr.0, pr.1)),
        None => None,
    }
}

/// Prefixing characters twice is prefixing their concatenation once.
proof fn lemma_prepend_parsed_assoc(
    a: Seq<char>,
    b: Seq<char>,
    r: Option<(Seq<char>, Seq<char>)>,
)
    ensures
        prepend_parsed(a, prepend_parsed(b, r)) == prepend_parsed(a + b, r),
{
    match r {
        Some(pr) => {
            assert(a + (b + pr.0) =~= (a + b) + pr.0);
        },
        None => {},
    }
}

/// Prefixing records twice is prefixing their concatenation once.
proof fn lemma_prepend_entries_assoc(
    a: Seq<(Seq<char>, int)>,
    b: Seq<(Seq<char>, int)>,
    r: Option<(Seq<(Seq<char>, int)>, Seq<char>)>,
)
    ensures
        prepend_entries(a, prepend_entries(b, r)) == prepend_entries(a + b, r),
{
    match r {
        Some(pr) => {
            assert(a + (b + pr.0) =~= (a + b) + pr.0);
        },
        None => {},
    }
}

/// A run of digits values below ten to the power of its length.
proof fn lemma_digits_val_bound(d: Seq<char>)
    ensures
        0 <= digits_val(d) < pow10(d.len() as int),
    decreases d.len(),
{
    if d.len() > 0 {
        lemma_digits_val_bound(d.subrange(0, d.len() - 1));
        assert(pow10(d.len() as int) == 10 * pow10(d.len() - 1));
    }
}

/// The digit character for `d`, which must be below ten.
pub(crate) fn digit_char_exec(d: u64) -> (c: char)
    requires
        d <= 9,
    ensures
        c == digit_char(d as int),
{
    if d == 0 {
        '0'
    } else if d == 1 {
        '1'
    } else if d == 2 {
        '2'
    } else if d == 3 {
        '3'
    } else if d == 4 {
        '4'
    } else if d == 5 {
        '5'
    } else if d == 6 {
        '6'
    } else if d == 7 {
        '7'
    } else if d == 8 {
        '8'
    } else {
        '9'
    }
}

/// Writes `n` in decimal after the text already in `out`.
pub(crate) fn push_dec_u64(out: &mut Vec<char>, n: u64)
    ensures
        final(out)@ == old(out)@ + dec_nat(n as int),
    decreases n,
{
    if n <= 9 {
        out.push(digit_char_exec(n));
        proof {
            assert(old(out)@.push(digit_char(n as int)) =~= old(out)@ + dec_nat(n as int));
        }
    } else {
        push_dec_u64(out, n / 10);
        out.push(digit_char_exec(n % 10));
        proof {
            assert((old(out)@ + dec_nat(n as int / 10)).push(digit_char(n as int % 10)) =~= old(
                out,
            )@ + dec_nat(n as int / 10).push(digit_char(n as int % 10)));
        }
    }
}

/// Writes `t` in decimal, minus sign first when negative.
fn push_dec_i64(out: &mut Vec<char>, t: i64)
    ensures
        final(out)@ == old(out)@ + dec_int(t as int),
{
    if t < 0 {
        out.push('-');
        let m: u64 = if t == i64::MIN {
            9223372036854775808u64
        } else {
            (-t) as u64
        };
        proof {
            assert(m as int == -(t as int));
        }
        push_dec_u64(out, m);
        proof {
            assert(old(out)@.push('-') + dec_nat(m as int) =~= old(out)@ + (seq!['-'] + dec_nat(
                -(t as int),
            )));
        }
    } else {
        push_dec_u64(out, t as u64);
    }
}

/// Writes the fixed text that stands before a record's path.
fn push_entry_prefix(out: &mut Vec<char>)
    ensures
        final(out)@ == old(out)@ + entry_prefix(),
{
    out.push(' ');
    out.push(' ');
    out.push('{');
    out.push('"');
    out.push('p');
    out.push('a');
    out.push('t');
    out.push('h');
    out.push('"');
    out.push(':');
    out.push(' ');
    out.push('"');
    proof {
        assert(out@ =~= old(out)@ + entry_prefix());
    }
}

/// Writes the fixed text that stands between a record's path and instant.
fn push_entry_mid(out: &mut Vec<char>)
    ensures
        final(out)@ == old(out)@ + entry_mid(),
{
    out.push('"');
    out.push(',');
    out.push(' ');
    out.push('"');
    out.push('p');
    out.push('i');
    out.push('c');
    out.push('k');
    out.push('e');
    out.push('d');
    out.push('_');
    out.push('a');
    out.push('t');
    out.push('"');
    out.push(':');
    out.push(' ');
    proof {
        assert(out@ =~= old(out)@ + entry_mid());
    }
}

/// Writes a path with its quotes and backslashes escaped.
fn push_escaped(out: &mut Vec<char>, p: &Vec<char>)
    ensures
        final(out)@ == old(out)@ + esc(p@),
{
    let mut i: usize = 0;
    while i < p.len()
        invariant
            i <= p@.len(),
            out@ == old(out)@ + esc(p@.subrange(0, i as int)),
        decreases p@.len() - i,
    {
        let c = p[i];
        let ghost pre = out@;
        if c == '"' || c == '\\' {
            out.push('\\');
            out.push(c);
            proof {
                assert(pre.push('\\').push(c) =~= pre + esc_char(p@[i as int]));
            }
        } else {
            out.push(c);
            proof {
                assert(pre.push(c) =~= pre + esc_char(p@[i as int]));
            }
        }
        proof {
            assert(p@.subrange(0, i + 1 as int) =~= p@.subrange(0, i as int).push(p@[i as int]));
            lemma_esc_push(p@.subrange(0, i as int), p@[i as int]);
            assert((old(out)@ + esc(p@.subrange(0, i as int))) + esc_char(p@[i as int]) =~= old(
                out,
            )@ + esc(p@.subrange(0, i + 1 as int)));
        }
        i += 1;
    }
    proof {
        assert(p@.subrange(0, p@.len() as int) =~= p@);
    }
}

/// Writes one record.
fn push_entry(out: &mut Vec<char>, e: &HistoryEntry)
    ensures
        final(out)@ == old(out)@ + spec_encode_entry(e.path@, e.picked_at as int),
{
    push_entry_prefix(out);
    let p = string_to_chars(e.path.as_str());
    push_escaped(out, &p);
    push_entry_mid(out);
    push_dec_i64(out, e.picked_at);
    out.push('}');
    proof {
        assert(out@ =~= old(out)@ + spec_encode_entry(e.path@, e.picked_at as int));
    }
}

/// The persisted text of the whole ledger, exactly as the format above
/// writes it.
pub fn encode_history(history: &Vec<HistoryEntry>) -> (text: String)
    ensures
        text@ == spec_encode_ledger(models(history@)),
{
    let mut out: Vec<char> = Vec::new();
    if history.len() == 0 {
        out.push('[');
        out.push(']');
        proof {
            assert(out@ =~= spec_encode_ledger(models(history@)));
        }
        return chars_to_string(&out);
    }
    out.push('[');
    out.push('\n');
    let ghost open_text = out@;
    let mut i: usize = 0;
    while i < history.len()
        invariant
            1 <= history@.len(),
            i <= history@.len(),
            open_text == seq!['[', '\n'],
            models(history@).len() == history@.len(),
            forall|k: int|
                0 <= k < history@.len() ==> models(history@)[k] == (
                history@[k].path@,
                history@[k].picked_at as int,
                ),
            out@ == open_text + spec_encode_entries(models(history@).subrange(0, i as int)),
        decreases history@.len() - i,
    {
        let ghost pre = out@;
        let ghost mpre = models(history@).subrange(0, i as int);
        if i > 0 {
            out.push(',');
            out.push('\n');
        }
        push_entry(&mut out, &history[i]);
        proof {
            let x = models(history@)[i as int];
            assert(models(history@).subrange(0, i + 1 as int) =~= mpre.push(x));
            if i == 0 {
                assert(mpre.len() == 0);
                assert(mpre.push(x) =~= seq![x]);
                assert(spec_encode_entries(seq![x]) == spec_encode_entry(x.0, x.1));
                assert(out@ =~= open_text + spec_encode_entries(
                    models(history@).subrange(0, i + 1 as int),
                ));
            } else {
                lemma_encode_entries_push(mpre, x);
                assert(out@ =~= open_text + spec_encode_entries(
                    models(history@).subrange(0, i + 1 as int),
                ));
            }
        }
        i += 1;
    }
    out.push('\n');
    out.push(']');
    proof {
        assert(models(history@).subrange(0, history@.len() as int) =~= models(history@));
        assert(out@ =~= spec_encode_ledger(models(history@)));
    }
    chars_to_string(&out)
}

/// Whether `c` is a decimal digit.
pub(crate) fn is_digit_exec(c: char) -> (r: bool)
    ensures
        r == is_digit(c),
{
    c == '0' || c == '1' || c == '2' || c == '3' || c == '4' || c == '5' || c == '6' || c == '7'
        || c == '8' || c == '9'
}

/// The value of a digit character.
pub(crate) fn digit_val_exec(c: char) -> (r: u64)
    ensures
        r == digit_val(c),
        r <= 9,
{
    if c == '0' {
        0
    } else if c == '1' {
        1
    } else if c == '2' {
        2
    } else if c == '3' {
        3
    } else if c == '4' {
        4
    } else if c == '5' {
        5
    } else if c == '6' {
        6
    } else if c == '7' {
        7
    } else if c == '8' {
        8
    } else {
        9
    }
}

/// The characters of `s` from position `i` on: the text a parsing step
/// still has in front of it.
pub open spec fn suffix(s: Seq<char>, i: int) -> Seq<char> {
    s.subrange(i, s.len() as int)
}

/// Tries to read the exact text `lit` at position `i`, and returns the
/// position just past it.
fn expect_at(s: &Vec<char>, i: usize, lit: &Vec<char>) -> (r: Option<usize>)
    requires
        i <= s@.len(),
    ensures
        match r {
            Some(j) => i <= j <= s@.len() && spec_expect(suffix(s@, i as int), lit@) == Some(
                suffix(s@, j as int),
            ),
            None => spec_expect(suffix(s@, i as int), lit@) is None,
        },
{
    if lit.len() > s.len() - i {
        return None;
    }
    let mut k: usize = 0;
    while k < lit.len()
        invariant
            i + lit@.len() <= s@.len(),
            s@.len() <= usize::MAX,
            k <= lit@.len(),
            forall|x: int| 0 <= x < k ==> s@[i + x] == lit@[x],
        decreases lit@.len() - k,
    {
        if s[i + k] != lit[k] {
            proof {
                assert(suffix(s@, i as int).subrange(0, lit@.len() as int)[k as int] != lit@[
                k as int]);
            }
            return None;
        }
        k += 1;
    }
    proof {
        assert(suffix(s@, i as int).subrange(0, lit@.len() as int) =~= lit@);
        assert(suffix(s@, i as int).subrange(
            lit@.len() as int,
            suffix(s@, i as int).len() as int,
        ) =~= suffix(s@, (i + lit@.len()) as int));
    }
    Some(i + lit.len())
}

/// Reads a quoted, escaped string body at position `i`: the unescaped
/// characters and the position just past the closing quote.
fn parse_string_at(s: &Vec<char>, i: usize) -> (r: Option<(Vec<char>, usize)>)
    requires
        i <= s@.len(),
    ensures
        match r {
            Some(pr) => i <= pr.1 <= s@.len() && spec_parse_string(suffix(s@, i as int)) == Some(
                (pr.0@, suffix(s@, pr.1 as int)),
            ),
            None => spec_parse_string(suffix(s@, i as int)) is None,
        },
{
    let mut acc: Vec<char> = Vec::new();
    let mut k: usize = i;
    while k < s.len()
        invariant
            i <= k <= s@.len(),
            spec_parse_string(suffix(s@, i as int)) == prepend_parsed(
                acc@,
                spec_parse_string(suffix(s@, k as int)),
            ),
        decreases s@.len() - k,
    {
        let c = s[k];
        proof {
            assert(suffix(s@, k as int)[0] == c);
        }
        if c == '"' {
            proof {
                assert(suffix(s@, k as int).drop_first() =~= suffix(s@, k + 1 as int));
                assert(spec_parse_string(suffix(s@, k as int)) == Some(
                    (Seq::<char>::empty(), suffix(s@, k + 1 as int)),
                ));
                assert(acc@ + Seq::<char>::empty() =~= acc@);
            }
            return Some((acc, k + 1));
        } else if c == '\\' {
            if k + 1 >= s.len() {
                proof {
                    assert(suffix(s@, k as int).len() < 2);
                }
                return None;
            }
            let c2 = s[k + 1];
            proof {
                assert(suffix(s@, k as int)[1] == c2);
            }
            if c2 == '"' || c2 == '\\' {
                let ghost pre = acc@;
                acc.push(c2);
                k = k + 2;
                proof {
                    let old_suf = suffix(s@, k - 2);
                    assert(old_suf.subrange(2, old_suf.len() as int) =~= suffix(s@, k as int));
                    assert(spec_parse_string(old_suf) == prepend_parsed(
                        seq![c2],
                        spec_parse_string(suffix(s@, k as int)),
                    ));
                    lemma_prepend_parsed_assoc(
                        pre,
                        seq![c2],
                        spec_parse_string(suffix(s@, k as int)),
                    );
                    assert(pre + seq![c2] =~= acc@);
                }
            } else {
                return None;
            }
        } else {
            let ghost pre = acc@;
            acc.push(c);
            k = k + 1;
            proof {
                let old_suf = suffix(s@, k - 1);
                assert(old_suf.drop_first() =~= suffix(s@, k as int));
                assert(spec_parse_string(old_suf) == prepend_parsed(
                    seq![c],
                    spec_parse_string(suffix(s@, k as int)),
                ));
                lemma_prepend_parsed_assoc(pre, seq![c], spec_parse_string(suffix(s@, k as int)));
                assert(pre + seq![c] =~= acc@);
            }
        }
    }
    proof {
        assert(suffix(s@, k as int).len() == 0);
        assert(spec_parse_string(suffix(s@, k as int)) is None);
    }
    None
}

/// Reads a decimal 64-bit integer at position `i`: its value and the
/// position just past its digits.
fn parse_int_at(s: &Vec<char>, i: usize) -> (r: Option<(i64, usize)>)
    requires
        i <= s@.len(),
    ensures
        match r {
            Some(pr) => i <= pr.1 <= s@.len() && spec_parse_int(suffix(s@, i as int)) == Some(
                (pr.0 as int, suffix(s@, pr.1 as int)),
            ),
            None => spec_parse_int(suffix(s@, i as int)) is None,
        },
{
    let neg = i < s.len() && s[i] == '-';
    let start = if neg {
        i + 1
    } else {
        i
    };
    proof {
        if neg {
            assert(suffix(s@, i as int)[0] == '-');
            assert(suffix(s@, i as int).drop_first() =~= suffix(s@, start as int));
        } else {
            if i < s@.len() {
                assert(suffix(s@, i as int)[0] == s@[i as int]);
            }
        }
    }
    // find the run of digits
    let mut k: usize = start;
    while k < s.len() && is_digit_exec(s[k])
        invariant
            start <= k <= s@.len(),
            forall|x: int| start <= x < k ==> is_digit(s@[x]),
        decreases s@.len() - k,
    {
        k += 1;
    }
    let ghost digits = s@.subrange(start as int, k as int);
    proof {
        if k == start {
            assert(spec_parse_digits(suffix(s@, start as int)) == (
                Seq::<char>::empty(),
                suffix(s@, start as int),
            ));
        } else {
            assert(forall|x: int| 0 <= x < digits.len() ==> is_digit(#[trigger] digits[x]));
            assert(suffix(s@, start as int) =~= digits + suffix(s@, k as int));
            assert(suffix(s@, k as int).len() == 0 || !is_digit(suffix(s@, k as int)[0]));
            lemma_parse_digits_inv(digits, suffix(s@, k as int));
        }
    }
    let dl = k - start;
    if dl == 0 || dl > 19 {
        return None;
    }
    proof {
        assert(pow10(19) == 10_000_000_000_000_000_000) by {
            reveal_with_fuel(pow10, 21);
        }
        assert(s@.subrange(start as int, start as int) =~= Seq::<char>::empty());
    }
    // accumulate the value of the digits
    let mut acc: u64 = 0;
    let mut j: usize = start;
    while j < k
        invariant
            start <= j <= k <= s@.len(),
            k - start <= 19,
            digits == s@.subrange(start as int, k as int),
            acc == digits_val(s@.subrange(start as int, j as int)),
            0 <= acc < pow10(j - start),
            pow10(19) == 10_000_000_000_000_000_000,
            forall|x: int| start <= x < k ==> is_digit(s@[x]),
        decreases k - j,
    {
        let d = digit_val_exec(s[j]);
        proof {
            let pre = s@.subrange(start as int, j as int);
            let cur = s@.subrange(start as int, j + 1 as int);
            assert(cur =~= pre.push(s@[j as int]));
            assert(cur.subrange(0, cur.len() - 1) =~= pre);
            assert(cur[cur.len() - 1] == s@[j as int]);
            assert(pow10(j + 1 - start) == 10 * pow10(j - start));
            assert(pow10(j - start) <= pow10(18)) by {
                lemma_pow10_le(j - start, 18);
            }
            assert(pow10(18) * 10 == pow10(19));
        }
        acc = acc * 10 + d;
        j += 1;
    }
    proof {
        assert(s@.subrange(start as int, j as int) == digits);
        assert(acc == digits_val(digits));
    }
    if neg {
        if acc > 9223372036854775808u64 {
            return None;
        }
        let v: i64 = if acc == 9223372036854775808u64 {
            i64::MIN
        } else {
            -(acc as i64)
        };
        proof {
            assert(v as int == -(digits_val(digits)));
        }
        Some((v, k))
    } else {
        if acc > 9223372036854775807u64 {
            return None;
        }
        Some((acc as i64, k))
    }
}

/// The fixed text before a record's path, as a vector.
fn entry_prefix_vec() -> (v: Vec<char>)
    ensures
        v@ == entry_prefix(),
{
    let mut v: Vec<char> = Vec::new();
    v.push(' ');
    v.push(' ');
    v.push('{');
    v.push('"');
    v.push('p');
    v.push('a');
    v.push('t');
    v.push('h');
    v.push('"');
    v.push(':');
    v.push(' ');
    v.push('"');
    proof {
        assert(v@ =~= entry_prefix());
    }
    v
}

/// The fixed text between a record's path and instant, after the closing
/// quote, as a vector.
fn entry_mid_tail_vec() -> (v: Vec<char>)
    ensures
        v@ == entry_mid_tail(),
{
    let mut v: Vec<char> = Vec::new();
    v.push(',');
    v.push(' ');
    v.push('"');
    v.push('p');
    v.push('i');
    v.push('c');
    v.push('k');
    v.push('e');
    v.push('d');
    v.push('_');
    v.push('a');
    v.push('t');
    v.push('"');
    v.push(':');
    v.push(' ');
    proof {
        assert(v@ =~= entry_mid_tail());
    }
    v
}

/// Reads one record at position `i`: the path's characters, the instant,
/// and the position just past the record.
fn parse_entry_at(s: &Vec<char>, i: usize) -> (r: Option<(Vec<char>, i64, usize)>)
    requires
        i <= s@.len(),
    ensures
        match r {
            Some(pr) => i < pr.2 <= s@.len() && spec_parse_entry(suffix(s@, i as int)) == Some(
                ((pr.0@, pr.1 as int), suffix(s@, pr.2 as int)),
            ),
            None => spec_parse_entry(suffix(s@, i as int)) is None,
        },
{
    let prefix = entry_prefix_vec();
    let j1 = match expect_at(s, i, &prefix) {
        None => {
            return None;
        },
        Some(j) => j,
    };
    let (p, j2) = match parse_string_at(s, j1) {
        None => {
            return None;
        },
        Some(pr) => pr,
    };
    let midt = entry_mid_tail_vec();
    let j3 = match expect_at(s, j2, &midt) {
        None => {
            return None;
        },
        Some(j) => j,
    };
    let (t, j4) = match parse_int_at(s, j3) {
        None => {
            return None;
        },
        Some(pr) => pr,
    };
    let mut closer: Vec<char> = Vec::new();
    closer.push('}');
    proof {
        assert(closer@ =~= seq!['}']);
    }
    let j5 = match expect_at(s, j4, &closer) {
        None => {
            return None;
        },
        Some(j) => j,
    };
    Some((p, t, j5))
}

/// Reads a whole persisted ledger text back into entries. Succeeds exactly
/// when the text parses, returning entries whose model is what the text
/// says; every text the encoder writes parses back to what was encoded.
pub fn parse_history(text: &str) -> (r: Option<Vec<HistoryEntry>>)
    ensures
        match r {
            Some(l) => spec_parse_ledger(text@) == Some(models(l@)),
            None => spec_parse_ledger(text@) is None,
        },
{
    let chars = string_to_chars(text);
    let n = chars.len();
    let empty_text = n == 2 && chars[0] == '[' && chars[1] == ']';
    if empty_text {
        let out: Vec<HistoryEntry> = Vec::new();
        proof {
            assert(chars@ =~= seq!['[', ']']);
            assert(models(out@) =~= Seq::<(Seq<char>, int)>::empty());
        }
        return Some(out);
    }
    proof {
        if chars@ == seq!['[', ']'] {
            assert(chars@.len() == 2);
            assert(chars@[0] == '[');
            assert(chars@[1] == ']');
            assert(false);
        }
    }
    let mut open_lit: Vec<char> = Vec::new();
    open_lit.push('[');
    open_lit.push('\n');
    proof {
        assert(open_lit@ =~= seq!['[', '\n']);
    }
    let start = match expect_at(&chars, 0, &open_lit) {
        None => {
            proof {
                assert(suffix(chars@, 0) =~= chars@);
            }
            return None;
        },
        Some(j) => j,
    };
    proof {
        assert(suffix(chars@, 0) =~= chars@);
    }
    let mut out: Vec<HistoryEntry> = Vec::new();
    let mut k: usize = start;
    proof {
        assert(models(out@) =~= Seq::<(Seq<char>, int)>::empty());
        let inner = spec_parse_entries(suffix(chars@, k as int));
        match inner {
            Some(pr) => {
                assert(Seq::<(Seq<char>, int)>::empty() + pr.0 =~= pr.0);
            },
            None => {},
        }
    }
    loop
        invariant
            start <= k <= n,
            n == chars@.len(),
            spec_parse_entries(suffix(chars@, start as int)) == prepend_entries(
                models(out@),
                spec_parse_entries(suffix(chars@, k as int)),
            ),
            spec_expect(chars@, seq!['[', '\n']) == Some(suffix(chars@, start as int)),
            chars@ != seq!['[', ']'],
            chars@ == text@,
        decreases n - k,
    {
        let (p, t, j) = match parse_entry_at(&chars, k) {
            None => {
                return None;
            },
            Some(pr) => pr,
        };
        let ghost em: (Seq<char>, int) = (p@, t as int);
        let ghost pre_models = models(out@);
        let entry = HistoryEntry { path: chars_to_string(&p), picked_at: t };
        out.push(entry);
        proof {
            assert(models(out@) =~= pre_models + seq![em]);
        }
        if n - j >= 2 && chars[j] == ',' && chars[j + 1] == '\n' {
            proof {
                let r = suffix(chars@, j as int);
                assert(r.len() >= 2);
                assert(r[0] == ',');
                assert(r[1] == '\n');
                assert(r.subrange(2, r.len() as int) =~= suffix(chars@, j + 2 as int));
                let inner = spec_parse_entries(suffix(chars@, j + 2 as int));
                assert(spec_parse_entries(suffix(chars@, k as int)) == prepend_entries(
                    seq![em],
                    inner,
                ));
                lemma_prepend_entries_assoc(pre_models, seq![em], inner);
            }
            k = j + 2;
        } else {
            proof {
                let r = suffix(chars@, j as int);
                assert(!(r.len() >= 2 && r[0] == ',' && r[1] == '\n'));
                assert(spec_parse_entries(suffix(chars@, k as int)) == Some((seq![em], r)));
                assert(pre_models + (seq![em] + Seq::<(Seq<char>, int)>::empty()) =~= pre_models
                    + seq![em]);
                assert(spec_parse_entries(suffix(chars@, start as int)) == Some(
                    (models(out@), r),
                ));
            }
            if n - j == 2 && chars[j] == '\n' && chars[j + 1] == ']' {
                proof {
                    assert(suffix(chars@, j as int) =~= seq!['\n', ']']);
                }
                return Some(out);
            } else {
                proof {
                    let r = suffix(chars@, j as int);
                    if r == seq!['\n', ']'] {
                        assert(r.len() == 2);
                        assert(r[0] == '\n');
                        assert(r[1] == ']');
                        assert(false);
                    }
                }
                return None;
            }
        }
    }
}

/// Builds the in-memory ledger from what was found at the persisted
/// location: no file at all is an empty history and no cause for concern;
/// a file that parses is the history it holds; a file that does not parse
/// is reported by the second component of the result and the session
/// starts with an empty history rather than failing.
pub fn load_history(text: Option<&str>) -> (r: (Vec<HistoryEntry>, bool))
    ensures
        match text {
            None => r.0@.len() == 0 && r.1 == false,
            Some(t) => match spec_parse_ledger(t@) {
                Some(m) => models(r.0@) == m && r.1 == false,
                None => r.0@.len() == 0 && r.1 == true,
            },
        },
{
    match text {
        None => (Vec::new(), false),
        Some(t) => match parse_history(t) {
            Some(l) => (l, false),
            None => (Vec::new(), true),
        },
    }
}

/// Round trip at the ledger level: the persisted text of any ledger always
/// parses back to exactly that ledger, record for record.
pub proof fn lemma_history_round_trip(l: Seq<HistoryEntry>)
    ensures
        spec_parse_ledger(spec_encode_ledger(models(l))) == Some(models(l)),
{
    lemma_models_wf(l);
    lemma_codec_round_trip(models(l));
}

/// Powers of ten do not shrink as the exponent grows.
pub(crate) proof fn lemma_pow10_le(a: int, b: int)
    requires
        a <= b,
    ensures
        pow10(a) <= pow10(b),
    decreases b - a,
{
    if a < b {
        lemma_pow10_le(a, b - 1);
        lemma_pow10_pos(b - 1);
        if b > 0 {
            assert(pow10(b) == 10 * pow10(b - 1));
        }
    }
}

/// Powers of ten are positive.
proof fn lemma_pow10_pos(a: int)
    ensures
        pow10(a) >= 1,
    decreases a,
{
    if a > 0 {
        lemma_pow10_pos(a - 1);
    }
}

} // verus!
