//! Text encodings used by the persisted rows: lowercase hex for identities,
//! decimal for durations and heights, and the semicolon escaping of the
//! contact content format.

use vstd::prelude::*;

verus! {

/// The sixteen lowercase hex digits, in value order.
pub open spec fn hex_digit(v: int) -> char {
    seq!['0', '1', '2', '3', '4', '5', '6', '7', '8', '9', 'a', 'b', 'c', 'd', 'e', 'f'][v]
}

/// Lowercase hex rendering of a byte string: two digits per byte, high
/// nibble first.
pub open spec fn hex_of(bytes: Seq<u8>) -> Seq<char> {
    Seq::new(
        bytes.len() * 2,
        |i: int|
            if i % 2 == 0 {
                hex_digit(bytes[i / 2] as int / 16)
            } else {
                hex_digit(bytes[i / 2] as int % 16)
            },
    )
}

/// Numeric value of one hex digit, upper or lower case.
pub open spec fn hex_val(c: char) -> Option<int> {
    let u = c as int;
    if 48 <= u && u <= 57 {
        Some(u - 48)
    } else if 97 <= u && u <= 102 {
        Some(u - 87)
    } else if 65 <= u && u <= 70 {
        Some(u - 55)
    } else {
        None
    }
}

/// Whether a character sequence is a well-formed hex string: even length,
/// hex digits only.
pub open spec fn is_hex_str(s: Seq<char>) -> bool {
    s.len() % 2 == 0 && forall|i: int| 0 <= i < s.len() ==> #[trigger] hex_val(s[i]) is Some
}

/// Relies on hex::encode: lowercase hex, exactly two digits for each input
/// byte, high nibble first.
#[verifier::external_body]
pub fn hex_encode(bytes: &Vec<u8>) -> (r: String)
    ensures
        r@ == hex_of(bytes@),
{
    hex::encode(bytes)
}

/// Relies on hex::decode: succeeds exactly on an even number of hex digits,
/// upper or lower case, and pairs them into bytes, high nibble first.
#[verifier::external_body]
pub fn hex_decode(s: &str) -> (r: Option<Vec<u8>>)
    ensures
        r is Some <==> is_hex_str(s@),
        r matches Some(b) ==> {
            &&& b@.len() == s@.len() / 2
            &&& forall|i: int|
                0 <= i < b@.len() ==> (#[trigger] b@[i]) as int == 16 * hex_val(s@[2 * i]).unwrap()
                    + hex_val(s@[2 * i + 1]).unwrap()
        },
{
    hex::decode(s).ok().map(|v| v)
}

/// The bytes a well-formed hex string denotes.
pub open spec fn hex_bytes(s: Seq<char>) -> Seq<u8> {
    Seq::new(
        s.len() / 2,
        |i: int| (16 * hex_val(s[2 * i]).unwrap_or(0) + hex_val(s[2 * i + 1]).unwrap_or(0)) as u8,
    )
}

/// Hex strings produced by `hex_of` are well formed and decode back to the
/// bytes they came from.
pub proof fn lemma_hex_round_trip(bytes: Seq<u8>)
    ensures
        is_hex_str(hex_of(bytes)),
        hex_bytes(hex_of(bytes)) == bytes,
{
    let h = hex_of(bytes);
    assert forall|i: int| 0 <= i < h.len() implies #[trigger] hex_val(h[i]) is Some by {
        let b = bytes[i / 2] as int;
        assert(0 <= b < 256);
        if i % 2 == 0 {
            assert(h[i] == hex_digit(b / 16));
            assert(hex_val(hex_digit(b / 16)) is Some);
        } else {
            assert(h[i] == hex_digit(b % 16));
            assert(hex_val(hex_digit(b % 16)) is Some);
        }
    }
    assert(is_hex_str(h));
    let decoded = hex_bytes(h);
    assert(decoded.len() == bytes.len());
    assert forall|i: int| 0 <= i < decoded.len() implies decoded[i] == bytes[i] by {
        let b = bytes[i] as int;
        assert(h[2 * i] == hex_digit(b / 16));
        assert(h[2 * i + 1] == hex_digit(b % 16));
        assert(hex_val(hex_digit(b / 16)) == Some(b / 16));
        assert(hex_val(hex_digit(b % 16)) == Some(b % 16));
        assert(decoded[i] as int == 16 * (b / 16) + b % 16);
        assert(16 * (b / 16) + b % 16 == b);
    }
    assert(decoded =~= bytes);
}

/// The ten decimal digits, in value order.
pub open spec fn dec_digit(v: int) -> char {
    seq!['0', '1', '2', '3', '4', '5', '6', '7', '8', '9'][v]
}

/// Base-10 rendering of a non-negative integer, most significant digit
/// first, no padding.
pub open spec fn dec_of(n: int) -> Seq<char>
    decreases n,
{
    if n < 10 {
        seq![dec_digit(n)]
    } else {
        dec_of(n / 10) + seq![dec_digit(n % 10)]
    }
}

/// Numeric value of one decimal digit.
pub open spec fn dec_val(c: char) -> Option<int> {
    let u = c as int;
    if 48 <= u && u <= 57 {
        Some(u - 48)
    } else {
        None
    }
}

/// Value of a digit string read left to right; meaningful only when every
/// character is a decimal digit.
pub open spec fn dec_value(s: Seq<char>) -> int
    decreases s.len(),
{
    if s.len() == 0 {
        0
    } else {
        dec_value(s.drop_last()) * 10 + dec_val(s.last()).unwrap_or(0)
    }
}

/// Whether every character of a sequence is a decimal digit.
pub open spec fn all_dec_digits(s: Seq<char>) -> bool {
    forall|i: int| 0 <= i < s.len() ==> #[trigger] dec_val(s[i]) is Some
}

/// `dec_of` emits digits only, and they read back to the number.
pub proof fn lemma_dec_of_value(n: int)
    requires
        0 <= n,
    ensures
        all_dec_digits(dec_of(n)),
        dec_value(dec_of(n)) == n,
        dec_of(n).len() >= 1,
    decreases n,
{
    if n < 10 {
        let s = dec_of(n);
        assert(s =~= seq![dec_digit(n)]);
        assert(dec_val(dec_digit(n)) == Some(n));
        assert(s.last() == dec_digit(n));
        assert(s.drop_last() =~= Seq::<char>::empty());
        assert(dec_value(s.drop_last()) == 0);
        assert(dec_value(s) == n);
        assert forall|i: int| 0 <= i < s.len() implies #[trigger] dec_val(s[i]) is Some by {
            assert(s[i] == dec_digit(n));
        }
    } else {
        lemma_dec_of_value(n / 10);
        let s = dec_of(n);
        assert(s =~= dec_of(n / 10) + seq![dec_digit(n % 10)]);
        assert(s.drop_last() =~= dec_of(n / 10));
        assert(s.last() == dec_digit(n % 10));
        assert(dec_val(dec_digit(n % 10)) == Some(n % 10));
        assert(dec_value(s) == n / 10 * 10 + n % 10);
        assert(n / 10 * 10 + n % 10 == n);
        assert forall|i: int| 0 <= i < s.len() implies #[trigger] dec_val(s[i]) is Some by {
            if i < s.len() - 1 {
                assert(s[i] == dec_of(n / 10)[i]);
            } else {
                assert(s[i] == dec_digit(n % 10));
            }
        }
    }
}

/// Relies on u64's Display implementation: plain base-10 digits, most
/// significant first, no sign and no padding.
#[verifier::external_body]
pub fn u64_to_dec(n: u64) -> (r: String)
    ensures
        r@ == dec_of(n as int),
{
    n.to_string()
}

/// Reads a digit string as a number: the value of the digits if every
/// character is a digit and the value fits, otherwise zero.
pub open spec fn parse_u32_spec(s: Seq<char>) -> u32 {
    if s.len() > 0 && all_dec_digits(s) && dec_value(s) <= u32::MAX {
        dec_value(s) as u32
    } else {
        0
    }
}

/// Parses a base-10 number, answering zero for anything that is empty, not
/// all digits, or too large — the lenient reading used for stored durations.
pub fn parse_u32(s: &str) -> (r: u32)
    ensures
        r == parse_u32_spec(s@),
{
    let n: usize = s.unicode_len();
    if n == 0 {
        return 0;
    }
    let mut i: usize = 0;
    let mut acc: u32 = 0;
    let ghost gs = s@;
    while i < n
        invariant
            n == gs.len(),
            gs == s@,
            0 < n,
            i <= n,
            forall|j: int| 0 <= j < i ==> #[trigger] dec_val(gs[j]) is Some,
            acc == dec_value(gs.take(i as int)),
        decreases n - i,
    {
        let c = s.get_char(i);
        let u = c as u32;
        if u < 48 || u > 57 {
            proof {
                assert(dec_val(gs[i as int]) is None);
            }
            return 0;
        }
        let d: u32 = u - 48;
        if acc > (u32::MAX - d) / 10 {
            // The value no longer fits; show that the whole string overflows.
            proof {
                lemma_dec_value_monotone(gs, i as int);
                assert(dec_value(gs.take(i as int + 1)) == acc * 10 + d) by {
                    assert(gs.take(i as int + 1).drop_last() =~= gs.take(i as int));
                    assert(gs.take(i as int + 1).last() == gs[i as int]);
                };
            }
            return parse_overflow(s, i);
        }
        acc = acc * 10 + d;
        proof {
            assert(gs.take(i as int + 1).drop_last() =~= gs.take(i as int));
            assert(gs.take(i as int + 1).last() == gs[i as int]);
            assert(dec_val(gs[i as int]) == Some(d as int));
        }
        i += 1;
    }
    proof {
        assert(gs.take(n as int) =~= gs);
        assert(all_dec_digits(gs));
        assert(dec_value(gs) <= u32::MAX);
    }
    acc
}

/// Helper for `parse_u32`: once a prefix already exceeds `u32::MAX`, the
/// whole digit string does too, so the lenient reading is zero.
fn parse_overflow(s: &str, i: usize) -> (r: u32)
    requires
        i < s@.len(),
        dec_value(s@.take(i as int + 1)) > u32::MAX,
    ensures
        r == parse_u32_spec(s@),
{
    proof {
        if all_dec_digits(s@) {
            lemma_dec_value_prefix_bound(s@, i as int + 1);
        }
    }
    0
}

/// A digit string is worth at least as much as any of its prefixes.
proof fn lemma_dec_value_monotone(s: Seq<char>, i: int)
    requires
        0 <= i < s.len(),
    ensures
        dec_value(s.take(i + 1)) == dec_value(s.take(i)) * 10 + dec_val(s[i]).unwrap_or(0),
{
    assert(s.take(i + 1).drop_last() =~= s.take(i));
    assert(s.take(i + 1).last() == s[i]);
}

/// If some prefix of an all-digit string exceeds the bound, the whole
/// string does.
proof fn lemma_dec_value_prefix_bound(s: Seq<char>, k: int)
    requires
        0 <= k <= s.len(),
        dec_value(s.take(k)) > u32::MAX,
        all_dec_digits(s),
    ensures
        dec_value(s) > u32::MAX,
    decreases s.len() - k,
{
    if k == s.len() {
        assert(s.take(k) =~= s);
    } else {
        assert(s.take(k + 1).drop_last() =~= s.take(k));
        assert(s.take(k + 1).last() == s[k]);
        assert(dec_val(s[k]).unwrap_or(0) >= 0);
        assert(dec_value(s.take(k + 1)) == dec_value(s.take(k)) * 10 + dec_val(s[k]).unwrap_or(0));
        lemma_dec_value_prefix_bound(s, k + 1);
    }
}

/// Compares two strings character by character.
pub fn str_eq(a: &str, b: &str) -> (r: bool)
    ensures
        r == (a@ == b@),
{
    let na: usize = a.unicode_len();
    let nb: usize = b.unicode_len();
    if na != nb {
        proof {
            assert(a@.len() != b@.len());
        }
        return false;
    }
    let mut i: usize = 0;
    while i < na
        invariant
            na == a@.len() == b@.len(),
            i <= na,
            forall|j: int| 0 <= j < i ==> a@[j] == b@[j],
        decreases na - i,
    {
        if a.get_char(i) != b.get_char(i) {
            return false;
        }
        i += 1;
    }
    proof {
        assert(a@ =~= b@);
    }
    true
}

/// The contact content escaping: every `;` in a contact name becomes `-;`,
/// so that the name part never contains the `;;` field separator.
pub open spec fn escape_name(s: Seq<char>) -> Seq<char>
    decreases s.len(),
{
    if s.len() == 0 {
        s
    } else if s[0] == ';' {
        seq!['-', ';'] + escape_name(s.skip(1))
    } else {
        seq![s[0]] + escape_name(s.skip(1))
    }
}

/// The inverse reading: every leftmost `-;` becomes `;` again.
pub open spec fn unescape_name(s: Seq<char>) -> Seq<char>
    decreases s.len(),
{
    if s.len() == 0 {
        s
    } else if s.len() >= 2 && s[0] == '-' && s[1] == ';' {
        seq![';'] + unescape_name(s.skip(2))
    } else {
        seq![s[0]] + unescape_name(s.skip(1))
    }
}

/// Relies on str::replace scanning for leftmost matches: every `;` becomes
/// `-;`.
#[verifier::external_body]
pub fn escape_semicolons(s: &str) -> (r: String)
    ensures
        r@ == escape_name(s@),
{
    s.replace(";", "-;")
}

/// Relies on str::replace scanning for leftmost, non-overlapping matches:
/// every `-;` becomes `;`.
#[verifier::external_body]
pub fn unescape_semicolons(s: &str) -> (r: String)
    ensures
        r@ == unescape_name(s@),
{
    s.replace("-;", ";")
}

/// An escaped name never starts with a bare `;`; it is empty exactly when
/// the name was.
proof fn lemma_escape_head(s: Seq<char>)
    ensures
        escape_name(s).len() > 0 <==> s.len() > 0,
        s.len() > 0 ==> escape_name(s)[0] != ';',
{
    if s.len() > 0 {
        if s[0] == ';' {
            assert(escape_name(s)[0] == '-');
        } else {
            assert(escape_name(s)[0] == s[0]);
        }
    }
}

/// Unescaping undoes escaping: the contact name survives the round trip.
pub proof fn lemma_escape_round_trip(s: Seq<char>)
    ensures
        unescape_name(escape_name(s)) == s,
    decreases s.len(),
{
    if s.len() == 0 {
        assert(unescape_name(escape_name(s)) =~= s);
    } else {
        lemma_escape_round_trip(s.skip(1));
        let e = escape_name(s);
        if s[0] == ';' {
            assert(e =~= seq!['-', ';'] + escape_name(s.skip(1)));
            assert(e[0] == '-' && e[1] == ';');
            assert(e.skip(2) =~= escape_name(s.skip(1)));
            assert(unescape_name(e) =~= seq![';'] + s.skip(1));
            assert(unescape_name(e) =~= s);
        } else {
            assert(e =~= seq![s[0]] + escape_name(s.skip(1)));
            assert(e[0] == s[0]);
            if e.len() >= 2 && e[0] == '-' && e[1] == ';' {
                // The tail of the escaped form would have to start with `;`,
                // which `escape_name` never produces.
                assert(e[1] == escape_name(s.skip(1))[0]);
                lemma_escape_head(s.skip(1));
                assert(false);
            }
            assert(e.skip(1) =~= escape_name(s.skip(1)));
            assert(unescape_name(e) =~= seq![s[0]] + s.skip(1));
            assert(unescape_name(e) =~= s);
        }
    }
}

/// The field separator of a contact content: two semicolons.
pub open spec fn contact_sep() -> Seq<char> {
    seq![';', ';']
}

/// Position of the first double semicolon; `-1` when there is none.
pub open spec fn first_semi(s: Seq<char>) -> int
    decreases s.len(),
{
    if s.len() < 2 {
        -1
    } else if s[0] == ';' && s[1] == ';' {
        0
    } else {
        let r = first_semi(s.skip(1));
        if r < 0 {
            -1
        } else {
            r + 1
        }
    }
}

/// Position of the first dash; `-1` when there is none.
pub open spec fn first_dash(s: Seq<char>) -> int
    decreases s.len(),
{
    if s.len() == 0 {
        -1
    } else if s[0] == '-' {
        0
    } else {
        let r = first_dash(s.skip(1));
        if r < 0 {
            -1
        } else {
            r + 1
        }
    }
}

/// A found first double semicolon is in range and is one; none found means
/// none exists.
pub proof fn lemma_first_semi(s: Seq<char>)
    ensures
        first_semi(s) >= 0 ==> first_semi(s) + 1 < s.len() && s[first_semi(s)] == ';' && s[
            first_semi(s) + 1] == ';',
        first_semi(s) < 0 ==> forall|i: int|
            0 <= i < s.len() - 1 ==> !(s[i] == ';' && #[trigger] s[i + 1] == ';'),
    decreases s.len(),
{
    if s.len() >= 2 && !(s[0] == ';' && s[1] == ';') {
        lemma_first_semi(s.skip(1));
        if first_semi(s.skip(1)) < 0 {
            assert forall|i: int| 0 <= i < s.len() - 1 implies !(s[i] == ';' && #[trigger] s[i
                + 1] == ';') by {
                if i > 0 {
                    assert(s.skip(1)[i - 1] == s[i]);
                    assert(s.skip(1)[i] == s[i + 1]);
                }
            }
        } else {
            let r = first_semi(s.skip(1));
            assert(s.skip(1)[r] == s[r + 1]);
            assert(s.skip(1)[r + 1] == s[r + 2]);
        }
    }
}

/// When a forward scan stops at the first double semicolon, that position
/// is the first one.
pub proof fn lemma_first_semi_prefix(s: Seq<char>, i: int)
    requires
        0 <= i,
        i + 1 < s.len(),
        s[i] == ';' && s[i + 1] == ';',
        forall|j: int| 0 <= j < i ==> !(s[j] == ';' && #[trigger] s[j + 1] == ';'),
    ensures
        first_semi(s) == i,
    decreases s.len(),
{
    if i > 0 {
        assert forall|j: int| 0 <= j < i - 1 implies !(s.skip(1)[j] == ';' && #[trigger] s.skip(
            1,
        )[j + 1] == ';') by {
            assert(s.skip(1)[j] == s[j + 1]);
            assert(s.skip(1)[j + 1] == s[j + 2]);
            assert(!(s[j + 1] == ';' && s[j + 2] == ';'));
        }
        assert(s.skip(1)[i - 1] == s[i]);
        assert(s.skip(1)[i] == s[i + 1]);
        lemma_first_semi_prefix(s.skip(1), i - 1);
    }
}

/// A found first dash is in range and is one; none found means none
/// exists.
pub proof fn lemma_first_dash(s: Seq<char>)
    ensures
        first_dash(s) >= 0 ==> first_dash(s) < s.len() && s[first_dash(s)] == '-',
        first_dash(s) < 0 ==> forall|i: int| 0 <= i < s.len() ==> #[trigger] s[i] != '-',
    decreases s.len(),
{
    if s.len() > 0 && s[0] != '-' {
        lemma_first_dash(s.skip(1));
        if first_dash(s.skip(1)) < 0 {
            assert forall|i: int| 0 <= i < s.len() implies #[trigger] s[i] != '-' by {
                if i > 0 {
                    assert(s.skip(1)[i - 1] == s[i]);
                }
            }
        } else {
            assert(s.skip(1)[first_dash(s.skip(1))] == s[first_dash(s)]);
        }
    }
}

/// When a forward scan stops at the first dash, that position is the
/// first one.
pub proof fn lemma_first_dash_prefix(s: Seq<char>, i: int)
    requires
        0 <= i < s.len(),
        s[i] == '-',
        forall|j: int| 0 <= j < i ==> #[trigger] s[j] != '-',
    ensures
        first_dash(s) == i,
    decreases s.len(),
{
    if i > 0 {
        assert forall|j: int| 0 <= j < i - 1 implies #[trigger] s.skip(1)[j] != '-' by {
            assert(s.skip(1)[j] == s[j + 1]);
        }
        assert(s.skip(1)[i - 1] == s[i]);
        lemma_first_dash_prefix(s.skip(1), i - 1);
    }
}

/// Finds the first double semicolon at or after `from`.
#[verifier::loop_isolation(false)]
fn find_semi(s: &str, from: usize) -> (r: Option<usize>)
    requires
        from <= s@.len(),
    ensures
        match r {
            Some(j) => {
                &&& from <= j && j + 1 < s@.len()
                &&& first_semi(s@.skip(from as int)) == j - from
            },
            None => first_semi(s@.skip(from as int)) < 0,
        },
{
    let ghost t = s@.skip(from as int);
    let n: usize = s.unicode_len();
    if n == 0 {
        return Option::None;
    }
    let mut j: usize = from;
    while j < n - 1
        invariant
            from <= j,
            j <= n,
            n == s@.len(),
            t == s@.skip(from as int),
            forall|k: int|
                0 <= k < j - from ==> !(t[k] == ';' && #[trigger] t[k + 1] == ';'),
        decreases n - j,
    {
        let c0 = s.get_char(j);
        let c1 = s.get_char(j + 1);
        proof {
            assert(t[j - from] == s@[j as int]);
            assert(t[j - from + 1] == s@[j as int + 1]);
        }
        if c0 == ';' && c1 == ';' {
            proof {
                lemma_first_semi_prefix(t, j - from);
            }
            return Some(j);
        }
        j += 1;
    }
    proof {
        lemma_first_semi(t);
        if first_semi(t) >= 0 {
            let i = first_semi(t);
            assert(i + 1 < t.len());
            assert(t[i] == ';' && t[i + 1] == ';');
            assert(i + from + 1 >= n);
            assert(false);
        }
    }
    Option::None
}

/// Splits a contact content into its three fields, when it has exactly
/// three.
pub fn split3(s: &str) -> (r: Option<(String, String, String)>)
    ensures
        ({
            let i1 = first_semi(s@);
            if i1 < 0 {
                r is None
            } else {
                let rest = s@.skip(i1 + 2);
                let i2 = first_semi(rest);
                if i2 < 0 {
                    r is None
                } else {
                    let tail = rest.skip(i2 + 2);
                    if first_semi(tail) >= 0 {
                        r is None
                    } else {
                        r matches Some(p) && p.0@ == s@.take(i1) && p.1@ == rest.take(i2) && p.2@
                            == tail
                    }
                }
            }
        }),
{
    let n: usize = s.unicode_len();
    proof {
        assert(s@.skip(0) =~= s@);
    }
    let i1: usize = match find_semi(s, 0) {
        Some(j) => j,
        Option::None => {
            return Option::None;
        },
    };
    let i2: usize = match find_semi(s, i1 + 2) {
        Some(j) => j,
        Option::None => {
            return Option::None;
        },
    };
    proof {
        let rest = s@.skip(i1 as int + 2);
        assert(rest.skip(first_semi(rest) + 2) =~= s@.skip(i2 as int + 2));
    }
    match find_semi(s, i2 + 2) {
        Some(_) => Option::None,
        Option::None => {
            let a = s.substring_char(0, i1);
            let b = s.substring_char(i1 + 2, i2);
            let c = s.substring_char(i2 + 2, n);
            proof {
                let rest = s@.skip(i1 as int + 2);
                assert(a@ =~= s@.take(i1 as int));
                assert(b@ =~= rest.take(first_semi(rest)));
                assert(c@ =~= rest.skip(first_semi(rest) + 2));
            }
            Some((String::from_str(a), String::from_str(b), String::from_str(c)))
        },
    }
}

/// Splits a record content at its first dash into duration and name.
#[verifier::loop_isolation(false)]
pub fn split_dash(s: &str) -> (r: Option<(String, String)>)
    ensures
        match r {
            Some(p) => {
                &&& first_dash(s@) >= 0
                &&& p.0@ == s@.take(first_dash(s@))
                &&& p.1@ == s@.skip(first_dash(s@) + 1)
            },
            None => first_dash(s@) < 0,
        },
{
    let n: usize = s.unicode_len();
    let mut j: usize = 0;
    while j < n
        invariant
            j <= n,
            n == s@.len(),
            forall|k: int| 0 <= k < j ==> #[trigger] s@[k] != '-',
        decreases n - j,
    {
        if s.get_char(j) == '-' {
            proof {
                lemma_first_dash_prefix(s@, j as int);
            }
            let a = s.substring_char(0, j);
            let b = s.substring_char(j + 1, n);
            proof {
                assert(a@ =~= s@.take(j as int));
                assert(b@ =~= s@.skip(j as int + 1));
            }
            return Some((String::from_str(a), String::from_str(b)));
        }
        j += 1;
    }
    proof {
        lemma_first_dash(s@);
        if first_dash(s@) >= 0 {
            assert(s@[first_dash(s@)] == '-');
            assert(false);
        }
    }
    Option::None
}

/// An escaped name ends in a bare `;` only when the name itself ends in
/// one.
pub proof fn lemma_escape_last(s: Seq<char>)
    requires
        s.len() > 0,
        s.last() != ';',
    ensures
        escape_name(s).len() > 0,
        escape_name(s).last() != ';',
    decreases s.len(),
{
    if s.len() == 1 {
        assert(s[0] != ';');
        assert(escape_name(s.skip(1)) =~= Seq::<char>::empty());
        assert(escape_name(s) == seq![s[0]] + escape_name(s.skip(1)));
        assert(escape_name(s) =~= seq![s[0]]);
    } else {
        lemma_escape_last(s.skip(1), );
        assert(s.skip(1).last() == s.last());
        let rest = escape_name(s.skip(1));
        if s[0] == ';' {
            assert(escape_name(s) == seq!['-', ';'] + rest);
            assert(escape_name(s).last() == rest.last());
        } else {
            assert(escape_name(s) == seq![s[0]] + rest);
            assert(escape_name(s).last() == rest.last());
        }
    }
}

/// An escaped name never contains two consecutive semicolons, so the `;;`
/// separators of a contact content are unambiguous.
pub proof fn lemma_escape_no_double_semi(s: Seq<char>)
    ensures
        forall|i: int|
            0 <= i < escape_name(s).len() - 1 ==> !(escape_name(s)[i] == ';'
                && #[trigger] escape_name(s)[i + 1] == ';'),
    decreases s.len(),
{
    if s.len() > 0 {
        lemma_escape_no_double_semi(s.skip(1));
        let e = escape_name(s);
        let rest = escape_name(s.skip(1));
        assert forall|i: int| 0 <= i < e.len() - 1 implies !(e[i] == ';' && #[trigger] e[i
            + 1] == ';') by {
            if s[0] == ';' {
                assert(e =~= seq!['-', ';'] + rest);
                if i == 0 {
                    assert(e[0] == '-');
                } else if i == 1 {
                    assert(e[2] == rest[0]);
                    lemma_escape_head(s.skip(1));
                    assert(rest[0] != ';');
                } else {
                    assert(e[i] == rest[i - 2] && e[i + 1] == rest[i - 1]);
                    assert(!(rest[i - 2] == ';' && rest[i - 2 + 1] == ';'));
                }
            } else {
                assert(e =~= seq![s[0]] + rest);
                if i == 0 {
                    assert(e[0] == s[0] && s[0] != ';');
                } else {
                    assert(e[i] == rest[i - 1] && e[i + 1] == rest[i]);
                    assert(!(rest[i - 1] == ';' && rest[i - 1 + 1] == ';'));
                }
            }
        }
    }
}

} // verus!
