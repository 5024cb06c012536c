//! The stable, human-readable key-value document in which a config is
//! persisted, together with its verified emitter and strict parser.
//!
//! The document has a fixed schema: a `[login]` table holding the
//! username, the encrypted password bytes and the nonce bytes, then a
//! `[relay]` table holding the relay settings. [`doc_of`] states the one
//! canonical text of a config; [`to_document`] produces exactly that text
//! and [`parse_document`] accepts exactly the texts that [`doc_of`]
//! produces for structurally valid configs.

use vstd::prelude::*;
use vstd::string::*;

use crate::config::{
    Config, ConfigV, Login, LoginV, Mechanism, RelaySettings, RelaySettingsV, config_valid,
};

verus! {

// ---------------------------------------------------------------------------
// Characters and decimal numbers
// ---------------------------------------------------------------------------

/// The decimal digit character of `d` (for `0 <= d <= 9`).
pub open spec fn digit_char(d: int) -> char {
    if d == 0 {
        '0'
    } else if d == 1 {
        '1'
    } else if d == 2 {
        '2'
    } else if d == 3 {
        '3'
    } else if d == 4 {
        '4'
    } else if d == 5 {
        '5'
    } else if d == 6 {
        '6'
    } else if d == 7 {
        '7'
    } else if d == 8 {
        '8'
    } else {
        '9'
    }
}

/// The digit value of `c`, or -1 when `c` is no decimal digit.
pub open spec fn char_digit(c: char) -> int {
    if c == '0' {
        0
    } else if c == '1' {
        1
    } else if c == '2' {
        2
    } else if c == '3' {
        3
    } else if c == '4' {
        4
    } else if c == '5' {
        5
    } else if c == '6' {
        6
    } else if c == '7' {
        7
    } else if c == '8' {
        8
    } else if c == '9' {
        9
    } else {
        -1
    }
}

pub open spec fn is_digit(c: char) -> bool {
    char_digit(c) >= 0
}

/// Canonical decimal notation of `n`: no sign, no leading zero.
pub open spec fn dec_of(n: int) -> Seq<char>
    recommends
        n >= 0,
    decreases n,
{
    if n < 10 {
        seq![digit_char(n)]
    } else {
        dec_of(n / 10).push(digit_char(n % 10))
    }
}

/// Numeric value of a digit string.
pub open spec fn val_of(w: Seq<char>) -> int
    decreases w.len(),
{
    if w.len() == 0 {
        0
    } else {
        val_of(w.drop_last()) * 10 + char_digit(w.last())
    }
}

pub open spec fn all_digits(w: Seq<char>) -> bool {
    forall|k: int| 0 <= k < w.len() ==> is_digit(#[trigger] w[k])
}

/// Whether the canonical decimal of `v` stands at `i` in `t`, with the
/// digit run ending there (end of text or a non-digit follows).
pub open spec fn dec_at(t: Seq<char>, i: int, v: int) -> bool {
    &&& 0 <= i
    &&& i + dec_of(v).len() <= t.len()
    &&& t.subrange(i, i + dec_of(v).len() as int) == dec_of(v)
    &&& (i + dec_of(v).len() == t.len() || !is_digit(t[i + dec_of(v).len() as int]))
}

// ---------------------------------------------------------------------------
// Quoted strings
// ---------------------------------------------------------------------------

/// How one character stands inside a quoted string: a quote or backslash
/// is preceded by a backslash; every other character stands as itself.
pub open spec fn esc_char(c: char) -> Seq<char> {
    if c == '"' || c == '\\' {
        seq!['\\', c]
    } else {
        seq![c]
    }
}

/// A string's characters as they stand between the quotes.
pub open spec fn esc(s: Seq<char>) -> Seq<char>
    decreases s.len(),
{
    if s.len() == 0 {
        Seq::empty()
    } else {
        esc_char(s[0]) + esc(s.drop_first())
    }
}

/// Whether the escaped content `u` followed by its closing quote stands
/// at `i` in `t`.
pub open spec fn qstr_at(t: Seq<char>, i: int, u: Seq<char>) -> bool {
    &&& 0 <= i
    &&& i + esc(u).len() + 1 <= t.len()
    &&& t.subrange(i, i + esc(u).len() + 1) == esc(u) + seq!['"']
}

// ---------------------------------------------------------------------------
// Byte lists, mechanism lists, booleans
// ---------------------------------------------------------------------------

/// A byte list as it stands in the document: decimal values separated by
/// comma-space.
pub open spec fn bytes_doc(v: Seq<u8>) -> Seq<char>
    decreases v.len(),
{
    if v.len() == 0 {
        Seq::empty()
    } else if v.len() == 1 {
        dec_of(v[0] as int)
    } else {
        dec_of(v[0] as int) + seq![',', ' '] + bytes_doc(v.drop_first())
    }
}

/// Whether the byte list `u` followed by its closing bracket stands at
/// `i` in `t`.
pub open spec fn byte_arr_at(t: Seq<char>, i: int, u: Seq<u8>) -> bool {
    &&& 0 <= i
    &&& i + bytes_doc(u).len() + 1 <= t.len()
    &&& t.subrange(i, i + bytes_doc(u).len() + 1) == bytes_doc(u) + seq![']']
}

pub open spec fn mech_name(m: Mechanism) -> Seq<char> {
    match m {
        Mechanism::Plain => "Plain"@,
        Mechanism::Login => "Login"@,
        Mechanism::Xoauth2 => "Xoauth2"@,
    }
}

pub open spec fn mech_item(m: Mechanism) -> Seq<char> {
    seq!['"'] + mech_name(m) + seq!['"']
}

/// A mechanism list as it stands in the document: quoted names separated
/// by comma-space.
pub open spec fn mechs_doc(v: Seq<Mechanism>) -> Seq<char>
    decreases v.len(),
{
    if v.len() == 0 {
        Seq::empty()
    } else if v.len() == 1 {
        mech_item(v[0])
    } else {
        mech_item(v[0]) + seq![',', ' '] + mechs_doc(v.drop_first())
    }
}

/// Whether the mechanism list `u` followed by its closing bracket stands
/// at `i` in `t`.
pub open spec fn mech_arr_at(t: Seq<char>, i: int, u: Seq<Mechanism>) -> bool {
    &&& 0 <= i
    &&& i + mechs_doc(u).len() + 1 <= t.len()
    &&& t.subrange(i, i + mechs_doc(u).len() + 1) == mechs_doc(u) + seq![']']
}

pub open spec fn bool_doc(b: bool) -> Seq<char> {
    if b {
        "true"@
    } else {
        "false"@
    }
}

// ---------------------------------------------------------------------------
// The whole document
// ---------------------------------------------------------------------------

/// The `[login]` table of the document.
pub open spec fn login_doc(l: LoginV) -> Seq<char> {
    "[login]\nusername = \""@ + esc(l.username) + seq!['"'] + "\npassword = ["@ + bytes_doc(
        l.password,
    ) + seq![']'] + "\nnonce = ["@ + bytes_doc(l.nonce) + seq![']']
}

/// The `[relay]` table of the document.
pub open spec fn relay_doc(r: RelaySettingsV) -> Seq<char> {
    "\n\n[relay]\naddr = \""@ + esc(r.addr) + seq!['"'] + "\nport = "@ + dec_of(r.port as int)
        + "\ntls = "@ + bool_doc(r.tls) + "\nauthentication = ["@ + mechs_doc(r.authentication)
        + seq![']'] + seq!['\n']
}

/// The one canonical document text of a config.
pub open spec fn doc_of(c: ConfigV) -> Seq<char> {
    login_doc(c.login) + relay_doc(c.relay_settings)
}

// ---------------------------------------------------------------------------
// Emission
// ---------------------------------------------------------------------------

/// Relies on `String::push`: appends one character to the string.
#[verifier::external_body]
fn push_char(s: &mut String, c: char)
    ensures
        final(s)@ == old(s)@.push(c),
{
    s.push(c);
}

fn digit_char_exec(d: u32) -> (c: char)
    requires
        d < 10,
    ensures
        c == digit_char(d as int),
{
    match d {
        0 => '0',
        1 => '1',
        2 => '2',
        3 => '3',
        4 => '4',
        5 => '5',
        6 => '6',
        7 => '7',
        8 => '8',
        _ => '9',
    }
}

fn emit_dec(out: &mut String, n: u32)
    ensures
        final(out)@ == old(out)@ + dec_of(n as int),
    decreases n,
{
    if n < 10 {
        push_char(out, digit_char_exec(n));
        proof {
            assert(out@ =~= old(out)@ + dec_of(n as int));
        }
    } else {
        emit_dec(out, n / 10);
        push_char(out, digit_char_exec(n % 10));
        proof {
            assert(out@ =~= old(out)@ + dec_of(n as int));
        }
    }
}

fn emit_bytes_from(out: &mut String, v: &Vec<u8>, i: usize)
    requires
        i <= v@.len(),
    ensures
        final(out)@ == old(out)@ + bytes_doc(v@.skip(i as int)),
    decreases v@.len() - i,
{
    if i < v.len() {
        emit_dec(out, v[i] as u32);
        if i + 1 < v.len() {
            push_char(out, ',');
            push_char(out, ' ');
        }
        emit_bytes_from(out, v, i + 1);
        proof {
            assert(v@.skip(i as int)[0] == v@[i as int]);
            assert(v@.skip(i as int).drop_first() =~= v@.skip(i as int + 1));
            if i + 1 < v@.len() {
                assert(out@ =~= old(out)@ + bytes_doc(v@.skip(i as int)));
            } else {
                assert(v@.skip(i as int).len() == 1);
                assert(out@ =~= old(out)@ + bytes_doc(v@.skip(i as int)));
            }
        }
    } else {
        proof {
            assert(v@.skip(i as int) =~= Seq::<u8>::empty());
            assert(out@ =~= old(out)@ + bytes_doc(v@.skip(i as int)));
        }
    }
}

fn emit_escaped_from(out: &mut String, s: &str, i: usize)
    requires
        i <= s@.len(),
    ensures
        final(out)@ == old(out)@ + esc(s@.skip(i as int)),
    decreases s@.len() - i,
{
    let n = s.unicode_len();
    if i < n {
        let c = s.get_char(i);
        if c == '"' || c == '\\' {
            push_char(out, '\\');
        }
        push_char(out, c);
        emit_escaped_from(out, s, i + 1);
        proof {
            assert(s@.skip(i as int)[0] == s@[i as int]);
            assert(s@.skip(i as int).drop_first() =~= s@.skip(i as int + 1));
            assert(esc(s@.skip(i as int)) == esc_char(s@[i as int]) + esc(s@.skip(i as int + 1)));
            assert(out@ =~= old(out)@ + esc(s@.skip(i as int)));
        }
    } else {
        proof {
            assert(s@.skip(i as int) =~= Seq::<char>::empty());
            assert(out@ =~= old(out)@ + esc(s@.skip(i as int)));
        }
    }
}

fn emit_mech(out: &mut String, m: Mechanism)
    ensures
        final(out)@ == old(out)@ + mech_item(m),
{
    push_char(out, '"');
    match m {
        Mechanism::Plain => out.append("Plain"),
        Mechanism::Login => out.append("Login"),
        Mechanism::Xoauth2 => out.append("Xoauth2"),
    }
    push_char(out, '"');
    proof {
        assert(out@ =~= old(out)@ + mech_item(m));
    }
}

fn emit_mechs_from(out: &mut String, v: &Vec<Mechanism>, i: usize)
    requires
        i <= v@.len(),
    ensures
        final(out)@ == old(out)@ + mechs_doc(v@.skip(i as int)),
    decreases v@.len() - i,
{
    if i < v.len() {
        emit_mech(out, v[i]);
        if i + 1 < v.len() {
            push_char(out, ',');
            push_char(out, ' ');
        }
        emit_mechs_from(out, v, i + 1);
        proof {
            assert(v@.skip(i as int)[0] == v@[i as int]);
            assert(v@.skip(i as int).drop_first() =~= v@.skip(i as int + 1));
            if i + 1 < v@.len() {
                assert(out@ =~= old(out)@ + mechs_doc(v@.skip(i as int)));
            } else {
                assert(v@.skip(i as int).len() == 1);
                assert(out@ =~= old(out)@ + mechs_doc(v@.skip(i as int)));
            }
        }
    } else {
        proof {
            assert(v@.skip(i as int) =~= Seq::<Mechanism>::empty());
            assert(out@ =~= old(out)@ + mechs_doc(v@.skip(i as int)));
        }
    }
}

// ---------------------------------------------------------------------------
// Facts about decimal notation
// ---------------------------------------------------------------------------

proof fn lemma_dec_digits(n: int)
    requires
        n >= 0,
    ensures
        dec_of(n).len() >= 1,
        all_digits(dec_of(n)),
    decreases n,
{
    if n < 10 {
        assert(dec_of(n) == seq![digit_char(n)]);
        assert(is_digit(dec_of(n)[0]));
    } else {
        lemma_dec_digits(n / 10);
        assert forall|k: int| 0 <= k < dec_of(n).len() implies is_digit(#[trigger] dec_of(n)[k]) by {
            if k < dec_of(n).len() - 1 {
                assert(dec_of(n)[k] == dec_of(n / 10)[k]);
            } else {
                assert(dec_of(n)[k] == digit_char(n % 10));
            }
        }
    }
}

proof fn lemma_dec_head_pos(n: int)
    requires
        n >= 1,
    ensures
        char_digit(dec_of(n)[0]) >= 1,
    decreases n,
{
    if n < 10 {
    } else {
        lemma_dec_head_pos(n / 10);
        lemma_dec_digits(n / 10);
        assert(dec_of(n)[0] == dec_of(n / 10)[0]);
    }
}

proof fn lemma_val_dec(n: int)
    requires
        n >= 0,
    ensures
        val_of(dec_of(n)) == n,
    decreases n,
{
    if n < 10 {
        let w = dec_of(n);
        assert(val_of(Seq::<char>::empty()) == 0);
        assert(w.drop_last() =~= Seq::<char>::empty());
        assert(val_of(w) == char_digit(digit_char(n)));
    } else {
        lemma_val_dec(n / 10);
        lemma_dec_digits(n / 10);
        let w = dec_of(n);
        assert(w.drop_last() =~= dec_of(n / 10));
        assert(w.last() == digit_char(n % 10));
        assert(val_of(w) == (n / 10) * 10 + n % 10);
    }
}

proof fn lemma_val_nonneg(w: Seq<char>)
    requires
        all_digits(w),
    ensures
        val_of(w) >= 0,
    decreases w.len(),
{
    if w.len() > 0 {
        assert(all_digits(w.drop_last()));
        lemma_val_nonneg(w.drop_last());
        assert(char_digit(w.last()) >= 0);
    }
}

proof fn lemma_val_prefix(w: Seq<char>, j: int)
    requires
        0 <= j <= w.len(),
        all_digits(w),
    ensures
        val_of(w.take(j)) <= val_of(w),
    decreases w.len(),
{
    lemma_val_nonneg(w);
    if j == w.len() {
        assert(w.take(j) =~= w);
    } else {
        assert(all_digits(w.drop_last()));
        assert(w.take(j) =~= w.drop_last().take(j));
        lemma_val_prefix(w.drop_last(), j);
        lemma_val_nonneg(w.drop_last());
        assert(char_digit(w.last()) >= 0);
        assert(val_of(w) == val_of(w.drop_last()) * 10 + char_digit(w.last()));
    }
}

/// A digit string without a leading zero is the canonical decimal of its
/// value.
proof fn lemma_canon_dec(w: Seq<char>)
    requires
        w.len() >= 1,
        all_digits(w),
        w.len() > 1 ==> char_digit(w[0]) >= 1,
    ensures
        val_of(w) >= 0,
        dec_of(val_of(w)) == w,
        w.len() > 1 ==> val_of(w) >= 10,
    decreases w.len(),
{
    lemma_val_nonneg(w);
    if w.len() == 1 {
        let d = char_digit(w[0]);
        assert(val_of(Seq::<char>::empty()) == 0);
        assert(w.drop_last() =~= Seq::<char>::empty());
        assert(w.last() == w[0]);
        assert(val_of(w) == d);
        assert(digit_char(d) == w[0]);
        assert(dec_of(d) =~= w);
    } else {
        let w2 = w.drop_last();
        assert(all_digits(w2));
        assert(w2[0] == w[0]);
        lemma_canon_dec(w2);
        let v2 = val_of(w2);
        // v2 >= 1: a single digit is the head digit, which is >= 1; a
        // longer prefix is >= 10.
        if w2.len() == 1 {
            assert(val_of(Seq::<char>::empty()) == 0);
            assert(w2.drop_last() =~= Seq::<char>::empty());
            assert(w2.last() == w2[0]);
            assert(v2 == char_digit(w[0]));
        }
        let d = char_digit(w.last());
        let v = val_of(w);
        assert(v == v2 * 10 + d);
        assert(v >= 10);
        assert(v / 10 == v2 && v % 10 == d) by (nonlinear_arith)
            requires
                v == v2 * 10 + d,
                0 <= d < 10,
                v2 >= 0,
        ;
        assert(dec_of(v) == dec_of(v2).push(digit_char(d)));
        assert(digit_char(d) == w.last());
        assert(dec_of(v) =~= w);
    }
}

proof fn lemma_dec_at_unique(t: Seq<char>, i: int, a: int, b: int)
    requires
        a >= 0,
        b >= 0,
        dec_at(t, i, a),
        dec_at(t, i, b),
    ensures
        a == b,
{
    lemma_dec_digits(a);
    lemma_dec_digits(b);
    let la = dec_of(a).len() as int;
    let lb = dec_of(b).len() as int;
    if la < lb {
        assert(is_digit(t[i + la])) by {
            assert(t.subrange(i, i + lb)[la] == t[i + la]);
            assert(is_digit(dec_of(b)[la]));
        }
    } else if lb < la {
        assert(is_digit(t[i + lb])) by {
            assert(t.subrange(i, i + la)[lb] == t[i + lb]);
            assert(is_digit(dec_of(a)[lb]));
        }
    } else {
        assert(dec_of(a) == dec_of(b));
        lemma_val_dec(a);
        lemma_val_dec(b);
    }
}

// ---------------------------------------------------------------------------
// Parsing: decimal numbers
// ---------------------------------------------------------------------------

fn char_digit_exec(c: char) -> (r: Option<u32>)
    ensures
        r is Some <==> is_digit(c),
        r is Some ==> r.unwrap() as int == char_digit(c),
{
    if c == '0' {
        Some(0)
    } else if c == '1' {
        Some(1)
    } else if c == '2' {
        Some(2)
    } else if c == '3' {
        Some(3)
    } else if c == '4' {
        Some(4)
    } else if c == '5' {
        Some(5)
    } else if c == '6' {
        Some(6)
    } else if c == '7' {
        Some(7)
    } else if c == '8' {
        Some(8)
    } else if c == '9' {
        Some(9)
    } else {
        None
    }
}

/// Continue a digit run that started at `start` with accumulated value
/// `acc`; `k` stands right after the digits read so far.
fn parse_dec_digits(s: &str, k: usize, acc: u32, max: u32, Ghost(start): Ghost<int>) -> (r: Option<
    (u32, usize),
>)
    requires
        9 <= max <= 1000000,
        0 <= start < k <= s@.len(),
        all_digits(s@.subrange(start, k as int)),
        char_digit(s@[start]) >= 1,
        val_of(s@.subrange(start, k as int)) == acc,
        acc <= max,
    ensures
        r is Some ==> ({
            &&& dec_at(s@, start, r.unwrap().0 as int)
            &&& r.unwrap().0 <= max
            &&& r.unwrap().1 == start + dec_of(r.unwrap().0 as int).len()
            &&& start < r.unwrap().1 <= s@.len()
        }),
        r is None ==> forall|v: int| 0 <= v <= max ==> !dec_at(s@, start, v),
    decreases s@.len() - k,
{
    let n: usize = s.unicode_len();
    let ghost w = s@.subrange(start, k as int);
    if k < n {
        let c: char = s.get_char(k);
        let dopt = char_digit_exec(c);
        match dopt {
            Some(dv) => {
                let next: u32 = acc * 10 + dv;
                let ghost w2 = s@.subrange(start, k + 1 as int);
                proof {
                    assert(w2.drop_last() =~= w);
                    assert(w2.last() == s@[k as int]);
                    assert(all_digits(w2));
                    assert(val_of(w2) == acc * 10 + dv);
                }
                if next > max {
                    proof {
                        assert forall|v: int| 0 <= v <= max implies !dec_at(s@, start, v) by {
                            if dec_at(s@, start, v) {
                                lemma_dec_digits(v);
                                let lv = dec_of(v).len() as int;
                                if start + lv <= k {
                                    assert(is_digit(s@[start + lv])) by {
                                        if start + lv < k {
                                            assert(w[start + lv - start] == s@[start + lv]);
                                        }
                                    }
                                    assert(false);
                                }
                                assert(dec_of(v).take(k + 1 - start) =~= w2) by {
                                    assert(s@.subrange(start, start + lv) == dec_of(v));
                                    assert forall|x: int| 0 <= x < k + 1 - start implies dec_of(
                                        v,
                                    )[x] == w2[x] by {
                                        assert(dec_of(v)[x] == s@.subrange(start, start + lv)[x]);
                                    }
                                }
                                lemma_val_prefix(dec_of(v), k + 1 - start);
                                lemma_val_dec(v);
                                assert(v >= val_of(w2));
                                assert(false);
                            }
                        }
                    }
                    None
                } else {
                    parse_dec_digits(s, k + 1, next, max, Ghost(start))
                }
            },
            None => {
                proof {
                    lemma_canon_dec(w);
                    assert(dec_of(acc as int) == w);
                    assert(s@.subrange(start, start + dec_of(acc as int).len()) == w);
                    assert(!is_digit(s@[k as int]));
                }
                Some((acc, k))
            },
        }
    } else {
        proof {
            lemma_canon_dec(w);
            assert(dec_of(acc as int) == w);
            assert(s@.subrange(start, start + dec_of(acc as int).len()) == w);
        }
        Some((acc, k))
    }
}

/// Parse a canonical decimal number at `i`, of value at most `max`, whose
/// digit run ends at the end of text or at a non-digit.
fn parse_dec(s: &str, i: usize, max: u32) -> (r: Option<(u32, usize)>)
    requires
        9 <= max <= 1000000,
        i <= s@.len(),
    ensures
        r is Some ==> ({
            &&& dec_at(s@, i as int, r.unwrap().0 as int)
            &&& r.unwrap().0 <= max
            &&& r.unwrap().1 == i + dec_of(r.unwrap().0 as int).len()
            &&& i < r.unwrap().1 <= s@.len()
        }),
        r is None ==> forall|v: int| 0 <= v <= max ==> !dec_at(s@, i as int, v),
{
    let n: usize = s.unicode_len();
    if i >= n {
        proof {
            assert forall|v: int| 0 <= v <= max implies !dec_at(s@, i as int, v) by {
                if dec_at(s@, i as int, v) {
                    lemma_dec_digits(v);
                }
            }
        }
        return None;
    }
    let c0: char = s.get_char(i);
    let d0 = char_digit_exec(c0);
    match d0 {
        None => {
            proof {
                assert forall|v: int| 0 <= v <= max implies !dec_at(s@, i as int, v) by {
                    if dec_at(s@, i as int, v) {
                        lemma_dec_digits(v);
                        assert(s@.subrange(i as int, i + dec_of(v).len())[0] == s@[i as int]);
                        assert(is_digit(dec_of(v)[0]));
                    }
                }
            }
            None
        },
        Some(dv) => {
            if dv == 0 {
                // A canonical zero is a single digit.
                if i + 1 < n {
                    let c1: char = s.get_char(i + 1);
                    let d1 = char_digit_exec(c1);
                    if d1.is_some() {
                        proof {
                            assert forall|v: int| 0 <= v <= max implies !dec_at(
                                s@,
                                i as int,
                                v,
                            ) by {
                                if dec_at(s@, i as int, v) {
                                    if v >= 1 {
                                        lemma_dec_head_pos(v);
                                        lemma_dec_digits(v);
                                        assert(s@.subrange(i as int, i + dec_of(v).len())[0]
                                            == s@[i as int]);
                                    } else {
                                        assert(dec_of(0).len() == 1);
                                    }
                                }
                            }
                        }
                        return None;
                    }
                }
                proof {
                    assert(dec_of(0) =~= seq!['0']);
                    assert(s@[i as int] == '0');
                    assert(s@.subrange(i as int, i + 1) =~= seq!['0']);
                }
                Some((0, i + 1))
            } else {
                let ghost w1 = s@.subrange(i as int, i + 1);
                proof {
                    assert(w1 =~= seq![s@[i as int]]);
                    assert(val_of(Seq::<char>::empty()) == 0);
                    assert(w1.drop_last() =~= Seq::<char>::empty());
                    assert(w1.last() == s@[i as int]);
                    assert(val_of(w1) == char_digit(s@[i as int]));
                    assert(all_digits(w1));
                }
                parse_dec_digits(s, i + 1, dv, max, Ghost(i as int))
            }
        },
    }
}

// ---------------------------------------------------------------------------
// Facts about quoted strings
// ---------------------------------------------------------------------------

/// Two quote-terminated escaped strings that open the same text are the
/// same string with the same continuation: the quoted form is unambiguous.
proof fn lemma_esc_quote_unamb(u1: Seq<char>, u2: Seq<char>, t1: Seq<char>, t2: Seq<char>)
    requires
        esc(u1) + seq!['"'] + t1 == esc(u2) + seq!['"'] + t2,
    ensures
        u1 == u2,
        t1 == t2,
    decreases u1.len(),
{
    let a = esc(u1) + seq!['"'] + t1;
    if u1.len() == 0 {
        assert(esc(u1) =~= Seq::<char>::empty());
        assert(a[0] == '"');
        if u2.len() > 0 {
            assert(esc(u2) == esc_char(u2[0]) + esc(u2.drop_first()));
            assert(a[0] == esc_char(u2[0])[0]);
            assert(false);
        }
        assert(esc(u2) =~= Seq::<char>::empty());
        assert(u1 =~= u2);
        let a2 = esc(u2) + seq!['"'] + t2;
        assert(t1 =~= t2) by {
            assert(t1.len() == a.len() - 1);
            assert(t2.len() == a2.len() - 1);
            assert forall|x: int| 0 <= x < t1.len() implies t1[x] == t2[x] by {
                assert(a[x + 1] == t1[x]);
                assert(a2[x + 1] == t2[x]);
            }
        }
    } else {
        if u2.len() == 0 {
            assert(esc(u2) =~= Seq::<char>::empty());
            assert(a[0] == '"');
            assert(esc(u1) == esc_char(u1[0]) + esc(u1.drop_first()));
            assert(a[0] == esc_char(u1[0])[0]);
            assert(false);
        }
        assert(esc(u1) == esc_char(u1[0]) + esc(u1.drop_first()));
        assert(esc(u2) == esc_char(u2[0]) + esc(u2.drop_first()));
        let s1 = u1[0] == '"' || u1[0] == '\\';
        let s2 = u2[0] == '"' || u2[0] == '\\';
        assert(a[0] == esc_char(u1[0])[0]);
        assert(a[0] == esc_char(u2[0])[0]);
        if s1 && !s2 {
            assert(u2[0] == '\\');
            assert(false);
        }
        if !s1 && s2 {
            assert(u1[0] == '\\');
            assert(false);
        }
        if s1 && s2 {
            assert(a[1] == esc_char(u1[0])[1]);
            assert(a[1] == esc_char(u2[0])[1]);
        }
        assert(u1[0] == u2[0]);
        let e = esc_char(u1[0]);
        let l = e.len() as int;
        let r1 = esc(u1.drop_first());
        let r2 = esc(u2.drop_first());
        assert(esc(u1) == e + r1);
        assert(esc(u2) == e + r2);
        let a2 = esc(u2) + seq!['"'] + t2;
        assert(a == a2);
        let b1 = r1 + seq!['"'] + t1;
        let b2 = r2 + seq!['"'] + t2;
        assert(b1 =~= b2) by {
            assert(b1.len() == a.len() - l);
            assert(b2.len() == a2.len() - l);
            assert forall|x: int| 0 <= x < b1.len() implies b1[x] == b2[x] by {
                assert(b1[x] == a[x + l]) by {
                    if x < r1.len() {
                        assert(esc(u1)[x + l] == r1[x]);
                        assert(a[x + l] == esc(u1)[x + l]);
                    }
                }
                assert(b2[x] == a2[x + l]) by {
                    if x < r2.len() {
                        assert(esc(u2)[x + l] == r2[x]);
                        assert(a2[x + l] == esc(u2)[x + l]);
                    }
                }
            }
        }
        lemma_esc_quote_unamb(u1.drop_first(), u2.drop_first(), t1, t2);
        assert(u1.len() == u2.len());
        assert(u1 =~= u2) by {
            assert forall|x: int| 0 <= x < u1.len() implies u1[x] == u2[x] by {
                if x > 0 {
                    assert(u1[x] == u1.drop_first()[x - 1]);
                    assert(u2[x] == u2.drop_first()[x - 1]);
                }
            }
        }
    }
}

// ---------------------------------------------------------------------------
// Parsing: quoted strings
// ---------------------------------------------------------------------------

/// Read escaped content up to and including the closing quote, appending
/// the unescaped characters to `out`; `i` stands just inside the quotes.
fn parse_qstring_rest(s: &str, i: usize, out: &mut String) -> (r: Option<usize>)
    requires
        i <= s@.len(),
    ensures
        r is Some ==> ({
            let u = final(out)@.skip(old(out)@.len() as int);
            &&& final(out)@.len() >= old(out)@.len()
            &&& final(out)@ == old(out)@ + u
            &&& qstr_at(s@, i as int, u)
            &&& r.unwrap() == i + esc(u).len() + 1
            &&& r.unwrap() <= s@.len()
        }),
        r is None ==> forall|u: Seq<char>| !qstr_at(s@, i as int, u),
    decreases s@.len() - i,
{
    let n: usize = s.unicode_len();
    if i >= n {
        proof {
            assert forall|u: Seq<char>| !qstr_at(s@, i as int, u) by {
                if qstr_at(s@, i as int, u) {
                    assert(i + esc(u).len() + 1 <= s@.len());
                }
            }
        }
        return None;
    }
    let c: char = s.get_char(i);
    if c == '"' {
        proof {
            let u = out@.skip(out@.len() as int);
            assert(u =~= Seq::<char>::empty());
            assert(out@ =~= out@ + u);
            assert(esc(u) =~= Seq::<char>::empty());
            assert(s@.subrange(i as int, i + 1) =~= esc(u) + seq!['"']);
        }
        return Some(i + 1);
    }
    if c == '\\' {
        if i + 1 >= n {
            proof {
                assert forall|u: Seq<char>| !qstr_at(s@, i as int, u) by {
                    if qstr_at(s@, i as int, u) {
                        if u.len() == 0 {
                            assert(esc(u) =~= Seq::<char>::empty());
                            assert(s@.subrange(i as int, i + 1)[0] == s@[i as int]);
                            assert(s@[i as int] == '"');
                        } else {
                            assert(esc(u) == esc_char(u[0]) + esc(u.drop_first()));
                            assert(i + esc(u).len() + 1 <= s@.len());
                        }
                    }
                }
            }
            return None;
        }
        let d: char = s.get_char(i + 1);
        if d == '"' || d == '\\' {
            push_char(out, d);
            let ghost mid = out@;
            let r = parse_qstring_rest(s, i + 2, out);
            match r {
                Some(j) => {
                    proof {
                        let u2 = out@.skip(mid.len() as int);
                        let u = out@.skip(old(out)@.len() as int);
                        assert(u =~= seq![d] + u2);
                        assert(u.len() > 0);
                        assert(u[0] == d);
                        assert(u.drop_first() =~= u2);
                        assert(esc(u) == esc_char(u[0]) + esc(u.drop_first()));
                        assert(esc(u) == esc_char(d) + esc(u2));
                        assert(esc_char(d) =~= seq!['\\', d]);
                        assert(out@ =~= old(out)@ + u);
                        assert(s@.subrange(i as int, i + esc(u).len() + 1) =~= esc(u) + seq!['"'])
                            by {
                            let lhs = s@.subrange(i as int, i + esc(u).len() + 1);
                            let rhs = esc(u) + seq!['"'];
                            let inner = s@.subrange(i + 2, i + 2 + esc(u2).len() + 1);
                            assert(inner == esc(u2) + seq!['"']);
                            assert forall|x: int| 0 <= x < lhs.len() implies lhs[x] == rhs[x] by {
                                if x == 0 {
                                    assert(lhs[0] == s@[i as int]);
                                } else if x == 1 {
                                    assert(lhs[1] == s@[i + 1]);
                                } else {
                                    assert(lhs[x] == s@[i + x]);
                                    assert(inner[x - 2] == s@[i + x]);
                                    assert(rhs[x] == inner[x - 2]);
                                }
                            }
                        }
                    }
                    Some(j)
                },
                None => {
                    proof {
                        assert forall|u: Seq<char>| !qstr_at(s@, i as int, u) by {
                            if qstr_at(s@, i as int, u) {
                                if u.len() == 0 {
                                    assert(esc(u) =~= Seq::<char>::empty());
                                    assert(s@.subrange(i as int, i + 1)[0] == s@[i as int]);
                                    assert(s@[i as int] == '"');
                                    assert(false);
                                }
                                assert(esc(u) == esc_char(u[0]) + esc(u.drop_first()));
                                let e = esc_char(u[0]);
                                let c0 = s@[i as int];
                                assert(s@.subrange(i as int, i + esc(u).len() + 1)[0] == c0);
                                assert(e[0] == s@[i as int]);
                                if !(u[0] == '"' || u[0] == '\\') {
                                    assert(e =~= seq![u[0]]);
                                    assert(u[0] == '\\');
                                    assert(false);
                                }
                                assert(e =~= seq!['\\', u[0]]);
                                assert(s@.subrange(i as int, i + esc(u).len() + 1)[1] == s@[i + 1]);
                                assert(u[0] == d);
                                assert(qstr_at(s@, i + 2, u.drop_first())) by {
                                    let w = s@.subrange(
                                        i + 2,
                                        i + 2 + esc(u.drop_first()).len() + 1,
                                    );
                                    assert(w =~= esc(u.drop_first()) + seq!['"']) by {
                                        let outer = s@.subrange(i as int, i + esc(u).len() + 1);
                                        assert forall|x: int| 0 <= x < w.len() implies w[x] == (esc(
                                            u.drop_first(),
                                        ) + seq!['"'])[x] by {
                                            assert(w[x] == s@[i + 2 + x]);
                                            assert(outer[x + 2] == s@[i + 2 + x]);
                                        }
                                    }
                                }
                                assert(false);
                            }
                        }
                    }
                    None
                },
            }
        } else {
            proof {
                assert forall|u: Seq<char>| !qstr_at(s@, i as int, u) by {
                    if qstr_at(s@, i as int, u) {
                        if u.len() == 0 {
                            assert(esc(u) =~= Seq::<char>::empty());
                            assert(s@.subrange(i as int, i + 1)[0] == s@[i as int]);
                            assert(s@[i as int] == '"');
                            assert(false);
                        }
                        assert(esc(u) == esc_char(u[0]) + esc(u.drop_first()));
                        let e = esc_char(u[0]);
                        assert(s@.subrange(i as int, i + esc(u).len() + 1)[0] == s@[i as int]);
                        assert(e[0] == s@[i as int]);
                        if !(u[0] == '"' || u[0] == '\\') {
                            assert(e =~= seq![u[0]]);
                            assert(u[0] == '\\');
                            assert(false);
                        }
                        assert(e =~= seq!['\\', u[0]]);
                        assert(s@.subrange(i as int, i + esc(u).len() + 1)[1] == s@[i + 1]);
                        assert(u[0] == d);
                        assert(false);
                    }
                }
            }
            None
        }
    } else {
        push_char(out, c);
        let ghost mid = out@;
        let r = parse_qstring_rest(s, i + 1, out);
        match r {
            Some(j) => {
                proof {
                    let u2 = out@.skip(mid.len() as int);
                    let u = out@.skip(old(out)@.len() as int);
                    assert(u =~= seq![c] + u2);
                    assert(u.len() > 0);
                    assert(u[0] == c);
                    assert(u.drop_first() =~= u2);
                    assert(esc(u) == esc_char(u[0]) + esc(u.drop_first()));
                    assert(esc(u) == esc_char(c) + esc(u2));
                    assert(esc_char(c) =~= seq![c]);
                    assert(out@ =~= old(out)@ + u);
                    assert(s@.subrange(i as int, i + esc(u).len() + 1) =~= esc(u) + seq!['"']) by {
                        let lhs = s@.subrange(i as int, i + esc(u).len() + 1);
                        let rhs = esc(u) + seq!['"'];
                        let inner = s@.subrange(i + 1, i + 1 + esc(u2).len() + 1);
                        assert(inner == esc(u2) + seq!['"']);
                        assert forall|x: int| 0 <= x < lhs.len() implies lhs[x] == rhs[x] by {
                            if x == 0 {
                                assert(lhs[0] == s@[i as int]);
                            } else {
                                assert(lhs[x] == s@[i + x]);
                                assert(inner[x - 1] == s@[i + x]);
                                assert(rhs[x] == inner[x - 1]);
                            }
                        }
                    }
                }
                Some(j)
            },
            None => {
                proof {
                    assert forall|u: Seq<char>| !qstr_at(s@, i as int, u) by {
                        if qstr_at(s@, i as int, u) {
                            if u.len() == 0 {
                                assert(esc(u) =~= Seq::<char>::empty());
                                assert(s@.subrange(i as int, i + 1)[0] == s@[i as int]);
                                assert(s@[i as int] == '"');
                                assert(false);
                            }
                            assert(esc(u) == esc_char(u[0]) + esc(u.drop_first()));
                            let e = esc_char(u[0]);
                            assert(s@.subrange(i as int, i + esc(u).len() + 1)[0] == s@[i as int]);
                            assert(e[0] == s@[i as int]);
                            if u[0] == '"' || u[0] == '\\' {
                                assert(e =~= seq!['\\', u[0]]);
                                assert(s@[i as int] == '\\');
                                assert(false);
                            }
                            assert(e =~= seq![u[0]]);
                            assert(u[0] == c);
                            assert(qstr_at(s@, i + 1, u.drop_first())) by {
                                let w = s@.subrange(i + 1, i + 1 + esc(u.drop_first()).len() + 1);
                                assert(w =~= esc(u.drop_first()) + seq!['"']) by {
                                    let outer = s@.subrange(i as int, i + esc(u).len() + 1);
                                    assert forall|x: int| 0 <= x < w.len() implies w[x] == (esc(
                                        u.drop_first(),
                                    ) + seq!['"'])[x] by {
                                        assert(w[x] == s@[i + 1 + x]);
                                        assert(outer[x + 1] == s@[i + 1 + x]);
                                    }
                                }
                            }
                            assert(false);
                        }
                    }
                }
                None
            },
        }
    }
}

/// Parse a quoted-string body (escaped content plus closing quote) at `i`.
fn parse_qstring(s: &str, i: usize) -> (r: Option<(String, usize)>)
    requires
        i <= s@.len(),
    ensures
        r is Some ==> ({
            &&& qstr_at(s@, i as int, r.unwrap().0@)
            &&& r.unwrap().1 == i + esc(r.unwrap().0@).len() + 1
            &&& r.unwrap().1 <= s@.len()
        }),
        r is None ==> forall|u: Seq<char>| !qstr_at(s@, i as int, u),
{
    let mut out = String::new();
    let r = parse_qstring_rest(s, i, &mut out);
    match r {
        Some(j) => {
            proof {
                assert(out@.skip(0) =~= out@);
            }
            Some((out, j))
        },
        None => None,
    }
}

// ---------------------------------------------------------------------------
// Parsing: fixed text
// ---------------------------------------------------------------------------

/// Whether the text `w` stands at `i` in `t`.
pub open spec fn lit_at(t: Seq<char>, i: int, w: Seq<char>) -> bool {
    &&& 0 <= i
    &&& i + w.len() <= t.len()
    &&& t.subrange(i, i + w.len() as int) == w
}

fn expect_lit(s: &str, i: usize, lit: &str) -> (r: Option<usize>)
    requires
        i <= s@.len(),
    ensures
        r is Some ==> ({
            &&& lit_at(s@, i as int, lit@)
            &&& r.unwrap() == i + lit@.len()
            &&& r.unwrap() <= s@.len()
        }),
        r is None ==> !lit_at(s@, i as int, lit@),
{
    let n: usize = s.unicode_len();
    let m: usize = lit.unicode_len();
    if n - i < m {
        return None;
    }
    let mut j: usize = 0;
    while j < m
        invariant
            0 <= j <= m,
            i + m <= n,
            n == s@.len(),
            m == lit@.len(),
            forall|x: int| 0 <= x < j ==> s@[i + x] == lit@[x],
        decreases m - j,
    {
        let a: char = s.get_char(i + j);
        let b: char = lit.get_char(j);
        if a != b {
            proof {
                assert(!lit_at(s@, i as int, lit@)) by {
                    if lit_at(s@, i as int, lit@) {
                        assert(s@.subrange(i as int, i + lit@.len())[j as int] == s@[i + j]);
                    }
                }
            }
            return None;
        }
        j += 1;
    }
    proof {
        assert(s@.subrange(i as int, i + lit@.len()) =~= lit@);
    }
    Some(i + m)
}

// ---------------------------------------------------------------------------
// Parsing: byte lists
// ---------------------------------------------------------------------------

/// What stands at the head of a non-empty byte list: its first value's
/// decimal, then either the closing bracket or the separator and the rest.
proof fn lemma_byte_arr_head(t: Seq<char>, i: int, u: Seq<u8>)
    requires
        byte_arr_at(t, i, u),
        u.len() >= 1,
    ensures
        dec_at(t, i, u[0] as int),
        u.len() == 1 ==> t[i + dec_of(u[0] as int).len()] == ']',
        u.len() > 1 ==> t[i + dec_of(u[0] as int).len()] == ',',
        u.len() > 1 ==> t[i + dec_of(u[0] as int).len() + 1] == ' ',
        u.len() > 1 ==> byte_arr_at(t, i + dec_of(u[0] as int).len() + 2, u.drop_first()),
{
    lemma_dec_digits(u[0] as int);
    let d = dec_of(u[0] as int);
    let whole = t.subrange(i, i + bytes_doc(u).len() + 1);
    assert(whole == bytes_doc(u) + seq![']']);
    if u.len() == 1 {
        assert(bytes_doc(u) == d);
        assert(t.subrange(i, i + d.len() as int) =~= d) by {
            assert forall|x: int| 0 <= x < d.len() implies t.subrange(i, i + d.len() as int)[x]
                == d[x] by {
                assert(whole[x] == t[i + x]);
            }
        }
        assert(t[i + d.len()] == ']') by {
            assert(whole[d.len() as int] == t[i + d.len()]);
        }
        assert(!is_digit(']'));
    } else {
        let rest = bytes_doc(u.drop_first());
        assert(bytes_doc(u) == d + seq![',', ' '] + rest);
        assert(t.subrange(i, i + d.len() as int) =~= d) by {
            assert forall|x: int| 0 <= x < d.len() implies t.subrange(i, i + d.len() as int)[x]
                == d[x] by {
                assert(whole[x] == t[i + x]);
                assert((d + seq![',', ' '] + rest)[x] == d[x]);
            }
        }
        assert(t[i + d.len()] == ',') by {
            assert(whole[d.len() as int] == t[i + d.len()]);
            assert((d + seq![',', ' '] + rest)[d.len() as int] == ',');
        }
        assert(t[i + d.len() + 1] == ' ') by {
            assert(whole[d.len() as int + 1] == t[i + d.len() + 1]);
            assert((d + seq![',', ' '] + rest)[d.len() as int + 1] == ' ');
        }
        assert(!is_digit(','));
        let i2 = i + d.len() + 2;
        assert(byte_arr_at(t, i2, u.drop_first())) by {
            let inner = t.subrange(i2, i2 + rest.len() + 1);
            assert(inner =~= rest + seq![']']) by {
                assert forall|x: int| 0 <= x < inner.len() implies inner[x] == (rest + seq![
                    ']',
                ])[x] by {
                    assert(inner[x] == t[i2 + x]);
                    assert(whole[d.len() + 2 + x] == t[i2 + x]);
                    if x < rest.len() {
                        assert((d + seq![',', ' '] + rest)[d.len() + 2 + x] == rest[x]);
                    }
                }
            }
        }
    }
}

/// Parse one or more byte values and the closing bracket, appending the
/// values to `acc`; `i` stands on the first digit.
fn parse_bytes_elems(s: &str, i: usize, acc: &mut Vec<u8>) -> (r: Option<usize>)
    requires
        i <= s@.len(),
    ensures
        r is Some ==> ({
            let u = final(acc)@.skip(old(acc)@.len() as int);
            &&& final(acc)@ == old(acc)@ + u
            &&& u.len() >= 1
            &&& byte_arr_at(s@, i as int, u)
            &&& r.unwrap() == i + bytes_doc(u).len() + 1
            &&& r.unwrap() <= s@.len()
        }),
        r is None ==> forall|u: Seq<u8>| u.len() >= 1 ==> !byte_arr_at(s@, i as int, u),
    decreases s@.len() - i,
{
    let n: usize = s.unicode_len();
    let first = parse_dec(s, i, 255);
    match first {
        None => {
            proof {
                assert forall|u: Seq<u8>| u.len() >= 1 implies !byte_arr_at(s@, i as int, u) by {
                    if byte_arr_at(s@, i as int, u) {
                        lemma_byte_arr_head(s@, i as int, u);
                    }
                }
            }
            None
        },
        Some((x, k)) => {
            let xb: u8 = x as u8;
            acc.push(xb);
            let ghost dx = dec_of(x as int);
            if k < n {
                let c: char = s.get_char(k);
                if c == ']' {
                    proof {
                        let u = acc@.skip(old(acc)@.len() as int);
                        assert(u =~= seq![xb]);
                        assert(acc@ =~= old(acc)@ + u);
                        assert(bytes_doc(u) == dx);
                        assert(s@.subrange(i as int, k + 1) =~= dx + seq![']']) by {
                            assert(s@.subrange(i as int, k as int) == dx);
                            assert forall|y: int| 0 <= y < k + 1 - i implies s@.subrange(
                                i as int,
                                k + 1,
                            )[y] == (dx + seq![']'])[y] by {
                                if y < dx.len() {
                                    assert(s@.subrange(i as int, k as int)[y] == s@[i + y]);
                                }
                            }
                        }
                    }
                    Some(k + 1)
                } else if c == ',' {
                    let have_space: bool = if k + 1 < n {
                        s.get_char(k + 1) == ' '
                    } else {
                        false
                    };
                    if have_space {
                        let ghost mid = acc@;
                        let rec = parse_bytes_elems(s, k + 2, acc);
                        match rec {
                            Some(j) => {
                                proof {
                                    let u2 = acc@.skip(mid.len() as int);
                                    let u = acc@.skip(old(acc)@.len() as int);
                                    assert(u =~= seq![xb] + u2);
                                    assert(u.len() >= 2);
                                    assert(u[0] == xb);
                                    assert(u.drop_first() =~= u2);
                                    assert(acc@ =~= old(acc)@ + u);
                                    assert(bytes_doc(u) == dx + seq![',', ' '] + bytes_doc(u2));
                                    let whole = s@.subrange(i as int, j as int);
                                    assert(whole =~= bytes_doc(u) + seq![']']) by {
                                        let inner = s@.subrange(k + 2, j as int);
                                        assert(inner == bytes_doc(u2) + seq![']']);
                                        assert(s@.subrange(i as int, k as int) == dx);
                                        assert forall|y: int| 0 <= y < whole.len() implies whole[y]
                                            == (bytes_doc(u) + seq![']'])[y] by {
                                            assert(whole[y] == s@[i + y]);
                                            if y < dx.len() {
                                                assert(s@.subrange(i as int, k as int)[y] == s@[i
                                                    + y]);
                                            } else if y >= dx.len() + 2 {
                                                assert(inner[y - dx.len() - 2] == s@[i + y]);
                                            }
                                        }
                                    }
                                }
                                Some(j)
                            },
                            None => {
                                proof {
                                    assert forall|u: Seq<u8>| u.len() >= 1 implies !byte_arr_at(
                                        s@,
                                        i as int,
                                        u,
                                    ) by {
                                        if byte_arr_at(s@, i as int, u) {
                                            lemma_byte_arr_head(s@, i as int, u);
                                            lemma_dec_at_unique(
                                                s@,
                                                i as int,
                                                u[0] as int,
                                                x as int,
                                            );
                                            if u.len() == 1 {
                                                assert(s@[k as int] == ']');
                                                assert(false);
                                            }
                                            assert(byte_arr_at(s@, k + 2, u.drop_first()));
                                            assert(u.drop_first().len() >= 1);
                                            assert(false);
                                        }
                                    }
                                }
                                None
                            },
                        }
                    } else {
                        proof {
                            assert forall|u: Seq<u8>| u.len() >= 1 implies !byte_arr_at(
                                s@,
                                i as int,
                                u,
                            ) by {
                                if byte_arr_at(s@, i as int, u) {
                                    lemma_byte_arr_head(s@, i as int, u);
                                    lemma_dec_at_unique(s@, i as int, u[0] as int, x as int);
                                    if u.len() == 1 {
                                        assert(s@[k as int] == ']');
                                        assert(false);
                                    }
                                    assert(s@[k + 1] == ' ');
                                    assert(byte_arr_at(s@, k + 2, u.drop_first()));
                                    assert(false);
                                }
                            }
                        }
                        None
                    }
                } else {
                    proof {
                        assert forall|u: Seq<u8>| u.len() >= 1 implies !byte_arr_at(
                            s@,
                            i as int,
                            u,
                        ) by {
                            if byte_arr_at(s@, i as int, u) {
                                lemma_byte_arr_head(s@, i as int, u);
                                lemma_dec_at_unique(s@, i as int, u[0] as int, x as int);
                            }
                        }
                    }
                    None
                }
            } else {
                proof {
                    assert forall|u: Seq<u8>| u.len() >= 1 implies !byte_arr_at(
                        s@,
                        i as int,
                        u,
                    ) by {
                        if byte_arr_at(s@, i as int, u) {
                            lemma_byte_arr_head(s@, i as int, u);
                            lemma_dec_at_unique(s@, i as int, u[0] as int, x as int);
                        }
                    }
                }
                None
            }
        },
    }
}

/// Parse a whole byte list (elements plus closing bracket); `i` stands
/// right after the opening bracket.
fn parse_byte_arr(s: &str, i: usize) -> (r: Option<(Vec<u8>, usize)>)
    requires
        i <= s@.len(),
    ensures
        r is Some ==> ({
            &&& byte_arr_at(s@, i as int, r.unwrap().0@)
            &&& r.unwrap().1 == i + bytes_doc(r.unwrap().0@).len() + 1
            &&& r.unwrap().1 <= s@.len()
        }),
        r is None ==> forall|u: Seq<u8>| !byte_arr_at(s@, i as int, u),
{
    let n: usize = s.unicode_len();
    if i < n {
        let c: char = s.get_char(i);
        if c == ']' {
            let empty: Vec<u8> = Vec::new();
            proof {
                assert(bytes_doc(empty@) =~= Seq::<char>::empty());
                assert(s@.subrange(i as int, i + 1) =~= bytes_doc(empty@) + seq![']']);
            }
            return Some((empty, i + 1));
        }
        let mut acc: Vec<u8> = Vec::new();
        let r = parse_bytes_elems(s, i, &mut acc);
        match r {
            Some(j) => {
                proof {
                    assert(acc@.skip(0) =~= acc@);
                }
                Some((acc, j))
            },
            None => {
                proof {
                    assert forall|u: Seq<u8>| !byte_arr_at(s@, i as int, u) by {
                        if byte_arr_at(s@, i as int, u) {
                            if u.len() == 0 {
                                assert(bytes_doc(u) =~= Seq::<char>::empty());
                                assert(s@.subrange(i as int, i + 1) == bytes_doc(u) + seq![']']);
                                assert(s@.subrange(i as int, i + 1)[0] == s@[i as int]);
                                assert((bytes_doc(u) + seq![']'])[0] == ']');
                                assert(false);
                            }
                        }
                    }
                }
                None
            },
        }
    } else {
        proof {
            assert forall|u: Seq<u8>| !byte_arr_at(s@, i as int, u) by {
                if byte_arr_at(s@, i as int, u) {
                    assert(i + bytes_doc(u).len() + 1 <= s@.len());
                }
            }
        }
        None
    }
}

// ---------------------------------------------------------------------------
// Parsing: mechanism lists and booleans
// ---------------------------------------------------------------------------

/// Two quoted-string bodies at the same place hold the same content.
proof fn lemma_qstr_at_unique(t: Seq<char>, i: int, a: Seq<char>, b: Seq<char>)
    requires
        qstr_at(t, i, a),
        qstr_at(t, i, b),
    ensures
        a == b,
{
    let ta = t.skip(i + esc(a).len() + 1);
    let tb = t.skip(i + esc(b).len() + 1);
    assert(esc(a) + seq!['"'] + ta =~= t.skip(i)) by {
        let lhs = esc(a) + seq!['"'] + ta;
        assert forall|x: int| 0 <= x < lhs.len() implies lhs[x] == t.skip(i)[x] by {
            if x < esc(a).len() + 1 {
                assert(t.subrange(i, i + esc(a).len() + 1)[x] == t[i + x]);
            }
            assert(t.skip(i)[x] == t[i + x]);
        }
    }
    assert(esc(b) + seq!['"'] + tb =~= t.skip(i)) by {
        let lhs = esc(b) + seq!['"'] + tb;
        assert forall|x: int| 0 <= x < lhs.len() implies lhs[x] == t.skip(i)[x] by {
            if x < esc(b).len() + 1 {
                assert(t.subrange(i, i + esc(b).len() + 1)[x] == t[i + x]);
            }
            assert(t.skip(i)[x] == t[i + x]);
        }
    }
    lemma_esc_quote_unamb(a, b, ta, tb);
}

/// The three mechanism names hold no quote and no backslash, so they
/// stand unescaped, and they tell the mechanisms apart.
proof fn lemma_mech_names(m: Mechanism)
    ensures
        esc(mech_name(m)) == mech_name(m),
        forall|m2: Mechanism| mech_name(m) == #[trigger] mech_name(m2) ==> m == m2,
        mech_item(m).len() == mech_name(m).len() + 2,
{
    reveal_strlit("Plain");
    reveal_strlit("Login");
    reveal_strlit("Xoauth2");
    lemma_esc_plain("Plain"@);
    lemma_esc_plain("Login"@);
    lemma_esc_plain("Xoauth2"@);
    assert("Plain"@[0] != "Login"@[0]);
    assert("Plain"@.len() != "Xoauth2"@.len());
    assert("Login"@.len() != "Xoauth2"@.len());
}

proof fn lemma_esc_plain(s: Seq<char>)
    requires
        forall|k: int| 0 <= k < s.len() ==> s[k] != '"' && s[k] != '\\',
    ensures
        esc(s) == s,
    decreases s.len(),
{
    if s.len() > 0 {
        assert(esc_char(s[0]) =~= seq![s[0]]);
        lemma_esc_plain(s.drop_first());
        assert(esc(s) =~= s);
    }
}

/// A mechanism item is its name's quoted form.
proof fn lemma_mech_item_qstr(t: Seq<char>, i: int, m: Mechanism)
    requires
        lit_at(t, i, mech_item(m)),
    ensures
        t[i] == '"',
        qstr_at(t, i + 1, mech_name(m)),
{
    lemma_mech_names(m);
    let item = mech_item(m);
    let name = mech_name(m);
    assert(t.subrange(i, i + item.len() as int)[0] == t[i]);
    assert(item[0] == '"');
    assert(qstr_at(t, i + 1, name)) by {
        let w = t.subrange(i + 1, i + 1 + esc(name).len() + 1);
        assert(w =~= esc(name) + seq!['"']) by {
            assert forall|x: int| 0 <= x < w.len() implies w[x] == (esc(name) + seq!['"'])[x] by {
                assert(w[x] == t[i + 1 + x]);
                assert(t.subrange(i, i + item.len() as int)[x + 1] == t[i + 1 + x]);
                if x < name.len() {
                    assert(item[x + 1] == name[x]);
                } else {
                    assert(item[x + 1] == '"');
                }
            }
        }
    }
}

/// What stands at the head of a non-empty mechanism list.
proof fn lemma_mech_arr_head(t: Seq<char>, i: int, u: Seq<Mechanism>)
    requires
        mech_arr_at(t, i, u),
        u.len() >= 1,
    ensures
        lit_at(t, i, mech_item(u[0])),
        u.len() == 1 ==> t[i + mech_item(u[0]).len()] == ']',
        u.len() > 1 ==> t[i + mech_item(u[0]).len()] == ',',
        u.len() > 1 ==> t[i + mech_item(u[0]).len() + 1] == ' ',
        u.len() > 1 ==> mech_arr_at(t, i + mech_item(u[0]).len() + 2, u.drop_first()),
{
    let item = mech_item(u[0]);
    let whole = t.subrange(i, i + mechs_doc(u).len() + 1);
    assert(whole == mechs_doc(u) + seq![']']);
    if u.len() == 1 {
        assert(mechs_doc(u) == item);
        assert(t.subrange(i, i + item.len() as int) =~= item) by {
            assert forall|x: int| 0 <= x < item.len() implies t.subrange(
                i,
                i + item.len() as int,
            )[x] == item[x] by {
                assert(whole[x] == t[i + x]);
            }
        }
        assert(t[i + item.len()] == ']') by {
            assert(whole[item.len() as int] == t[i + item.len()]);
        }
    } else {
        let rest = mechs_doc(u.drop_first());
        assert(mechs_doc(u) == item + seq![',', ' '] + rest);
        assert(t.subrange(i, i + item.len() as int) =~= item) by {
            assert forall|x: int| 0 <= x < item.len() implies t.subrange(
                i,
                i + item.len() as int,
            )[x] == item[x] by {
                assert(whole[x] == t[i + x]);
                assert((item + seq![',', ' '] + rest)[x] == item[x]);
            }
        }
        assert(t[i + item.len()] == ',') by {
            assert(whole[item.len() as int] == t[i + item.len()]);
            assert((item + seq![',', ' '] + rest)[item.len() as int] == ',');
        }
        assert(t[i + item.len() + 1] == ' ') by {
            assert(whole[item.len() as int + 1] == t[i + item.len() + 1]);
            assert((item + seq![',', ' '] + rest)[item.len() as int + 1] == ' ');
        }
        let i2 = i + item.len() + 2;
        assert(mech_arr_at(t, i2, u.drop_first())) by {
            let inner = t.subrange(i2, i2 + rest.len() + 1);
            assert(inner =~= rest + seq![']']) by {
                assert forall|x: int| 0 <= x < inner.len() implies inner[x] == (rest + seq![
                    ']',
                ])[x] by {
                    assert(inner[x] == t[i2 + x]);
                    assert(whole[item.len() + 2 + x] == t[i2 + x]);
                    if x < rest.len() {
                        assert((item + seq![',', ' '] + rest)[item.len() + 2 + x] == rest[x]);
                    }
                }
            }
        }
    }
}

/// Parse one quoted mechanism name at `i`.
fn parse_mech(s: &str, i: usize) -> (r: Option<(Mechanism, usize)>)
    requires
        i <= s@.len(),
    ensures
        r is Some ==> ({
            &&& lit_at(s@, i as int, mech_item(r.unwrap().0))
            &&& r.unwrap().1 == i + mech_item(r.unwrap().0).len()
            &&& r.unwrap().1 <= s@.len()
        }),
        r is None ==> forall|m: Mechanism| !lit_at(s@, i as int, mech_item(m)),
{
    let n: usize = s.unicode_len();
    if i >= n {
        proof {
            assert forall|m: Mechanism| !lit_at(s@, i as int, mech_item(m)) by {
                if lit_at(s@, i as int, mech_item(m)) {
                    assert(mech_item(m).len() >= 1);
                }
            }
        }
        return None;
    }
    let c: char = s.get_char(i);
    if c != '"' {
        proof {
            assert forall|m: Mechanism| !lit_at(s@, i as int, mech_item(m)) by {
                if lit_at(s@, i as int, mech_item(m)) {
                    lemma_mech_item_qstr(s@, i as int, m);
                }
            }
        }
        return None;
    }
    let q = parse_qstring(s, i + 1);
    match q {
        None => {
            proof {
                assert forall|m: Mechanism| !lit_at(s@, i as int, mech_item(m)) by {
                    if lit_at(s@, i as int, mech_item(m)) {
                        lemma_mech_item_qstr(s@, i as int, m);
                    }
                }
            }
            None
        },
        Some((name, k)) => {
            let plain_s = String::from_str("Plain");
            let login_s = String::from_str("Login");
            let xoauth_s = String::from_str("Xoauth2");
            let m: Option<Mechanism> = if name == plain_s {
                Some(Mechanism::Plain)
            } else if name == login_s {
                Some(Mechanism::Login)
            } else if name == xoauth_s {
                Some(Mechanism::Xoauth2)
            } else {
                None
            };
            match m {
                Some(mv) => {
                    proof {
                        lemma_mech_names(mv);
                        assert(name@ == mech_name(mv));
                        let item = mech_item(mv);
                        assert(s@.subrange(i as int, i + item.len() as int) =~= item) by {
                            let inner = s@.subrange(i + 1, i + 1 + esc(name@).len() + 1);
                            assert(inner == esc(name@) + seq!['"']);
                            assert forall|x: int| 0 <= x < item.len() implies s@.subrange(
                                i as int,
                                i + item.len() as int,
                            )[x] == item[x] by {
                                assert(s@.subrange(i as int, i + item.len() as int)[x] == s@[i
                                    + x]);
                                if x == 0 {
                                    assert(s@[i as int] == '"');
                                } else {
                                    assert(inner[x - 1] == s@[i + x]);
                                    assert((esc(name@) + seq!['"'])[x - 1] == item[x]);
                                }
                            }
                        }
                    }
                    Some((mv, k))
                },
                None => {
                    proof {
                        assert forall|m2: Mechanism| !lit_at(s@, i as int, mech_item(m2)) by {
                            if lit_at(s@, i as int, mech_item(m2)) {
                                lemma_mech_item_qstr(s@, i as int, m2);
                                lemma_qstr_at_unique(s@, i + 1, name@, mech_name(m2));
                                lemma_mech_names(m2);
                                reveal_strlit("Plain");
                                reveal_strlit("Login");
                                reveal_strlit("Xoauth2");
                                assert(false);
                            }
                        }
                    }
                    None
                },
            }
        },
    }
}

/// Parse one or more mechanisms and the closing bracket, appending them
/// to `acc`; `i` stands on the first opening quote.
fn parse_mechs_elems(s: &str, i: usize, acc: &mut Vec<Mechanism>) -> (r: Option<usize>)
    requires
        i <= s@.len(),
    ensures
        r is Some ==> ({
            let u = final(acc)@.skip(old(acc)@.len() as int);
            &&& final(acc)@ == old(acc)@ + u
            &&& u.len() >= 1
            &&& mech_arr_at(s@, i as int, u)
            &&& r.unwrap() == i + mechs_doc(u).len() + 1
            &&& r.unwrap() <= s@.len()
        }),
        r is None ==> forall|u: Seq<Mechanism>| u.len() >= 1 ==> !mech_arr_at(s@, i as int, u),
    decreases s@.len() - i,
{
    let n: usize = s.unicode_len();
    let first = parse_mech(s, i);
    match first {
        None => {
            proof {
                assert forall|u: Seq<Mechanism>| u.len() >= 1 implies !mech_arr_at(
                    s@,
                    i as int,
                    u,
                ) by {
                    if mech_arr_at(s@, i as int, u) {
                        lemma_mech_arr_head(s@, i as int, u);
                    }
                }
            }
            None
        },
        Some((x, k)) => {
            acc.push(x);
            let ghost dx = mech_item(x);
            proof {
                lemma_mech_names(x);
            }
            if k < n {
                let c: char = s.get_char(k);
                if c == ']' {
                    proof {
                        let u = acc@.skip(old(acc)@.len() as int);
                        assert(u =~= seq![x]);
                        assert(acc@ =~= old(acc)@ + u);
                        assert(mechs_doc(u) == dx);
                        assert(s@.subrange(i as int, k + 1) =~= dx + seq![']']) by {
                            assert(s@.subrange(i as int, k as int) == dx);
                            assert forall|y: int| 0 <= y < k + 1 - i implies s@.subrange(
                                i as int,
                                k + 1,
                            )[y] == (dx + seq![']'])[y] by {
                                if y < dx.len() {
                                    assert(s@.subrange(i as int, k as int)[y] == s@[i + y]);
                                }
                            }
                        }
                    }
                    Some(k + 1)
                } else if c == ',' {
                    let have_space: bool = if k + 1 < n {
                        s.get_char(k + 1) == ' '
                    } else {
                        false
                    };
                    if have_space {
                        let ghost mid = acc@;
                        let rec = parse_mechs_elems(s, k + 2, acc);
                        match rec {
                            Some(j) => {
                                proof {
                                    let u2 = acc@.skip(mid.len() as int);
                                    let u = acc@.skip(old(acc)@.len() as int);
                                    assert(u =~= seq![x] + u2);
                                    assert(u.len() >= 2);
                                    assert(u[0] == x);
                                    assert(u.drop_first() =~= u2);
                                    assert(acc@ =~= old(acc)@ + u);
                                    assert(mechs_doc(u) == dx + seq![',', ' '] + mechs_doc(u2));
                                    let whole = s@.subrange(i as int, j as int);
                                    assert(whole =~= mechs_doc(u) + seq![']']) by {
                                        let inner = s@.subrange(k + 2, j as int);
                                        assert(inner == mechs_doc(u2) + seq![']']);
                                        assert(s@.subrange(i as int, k as int) == dx);
                                        assert forall|y: int| 0 <= y < whole.len() implies whole[y]
                                            == (mechs_doc(u) + seq![']'])[y] by {
                                            assert(whole[y] == s@[i + y]);
                                            if y < dx.len() {
                                                assert(s@.subrange(i as int, k as int)[y] == s@[i
                                                    + y]);
                                            } else if y >= dx.len() + 2 {
                                                assert(inner[y - dx.len() - 2] == s@[i + y]);
                                            }
                                        }
                                    }
                                }
                                Some(j)
                            },
                            None => {
                                proof {
                                    assert forall|u: Seq<Mechanism>| u.len() >= 1
                                        implies !mech_arr_at(s@, i as int, u) by {
                                        if mech_arr_at(s@, i as int, u) {
                                            lemma_mech_arr_head(s@, i as int, u);
                                            lemma_mech_item_qstr(s@, i as int, u[0]);
                                            lemma_mech_item_qstr(s@, i as int, x);
                                            lemma_qstr_at_unique(
                                                s@,
                                                i + 1,
                                                mech_name(u[0]),
                                                mech_name(x),
                                            );
                                            lemma_mech_names(u[0]);
                                            assert(u[0] == x);
                                            if u.len() == 1 {
                                                assert(s@[k as int] == ']');
                                                assert(false);
                                            }
                                            assert(mech_arr_at(s@, k + 2, u.drop_first()));
                                            assert(false);
                                        }
                                    }
                                }
                                None
                            },
                        }
                    } else {
                        proof {
                            assert forall|u: Seq<Mechanism>| u.len() >= 1 implies !mech_arr_at(
                                s@,
                                i as int,
                                u,
                            ) by {
                                if mech_arr_at(s@, i as int, u) {
                                    lemma_mech_arr_head(s@, i as int, u);
                                    lemma_mech_item_qstr(s@, i as int, u[0]);
                                    lemma_mech_item_qstr(s@, i as int, x);
                                    lemma_qstr_at_unique(s@, i + 1, mech_name(u[0]), mech_name(x));
                                    lemma_mech_names(u[0]);
                                    assert(u[0] == x);
                                    if u.len() == 1 {
                                        assert(s@[k as int] == ']');
                                        assert(false);
                                    }
                                    assert(s@[k + 1] == ' ');
                                    assert(false);
                                }
                            }
                        }
                        None
                    }
                } else {
                    proof {
                        assert forall|u: Seq<Mechanism>| u.len() >= 1 implies !mech_arr_at(
                            s@,
                            i as int,
                            u,
                        ) by {
                            if mech_arr_at(s@, i as int, u) {
                                lemma_mech_arr_head(s@, i as int, u);
                                lemma_mech_item_qstr(s@, i as int, u[0]);
                                lemma_mech_item_qstr(s@, i as int, x);
                                lemma_qstr_at_unique(s@, i + 1, mech_name(u[0]), mech_name(x));
                                lemma_mech_names(u[0]);
                                assert(u[0] == x);
                            }
                        }
                    }
                    None
                }
            } else {
                proof {
                    assert forall|u: Seq<Mechanism>| u.len() >= 1 implies !mech_arr_at(
                        s@,
                        i as int,
                        u,
                    ) by {
                        if mech_arr_at(s@, i as int, u) {
                            lemma_mech_arr_head(s@, i as int, u);
                            lemma_mech_item_qstr(s@, i as int, u[0]);
                            lemma_mech_item_qstr(s@, i as int, x);
                            lemma_qstr_at_unique(s@, i + 1, mech_name(u[0]), mech_name(x));
                            lemma_mech_names(u[0]);
                            assert(u[0] == x);
                        }
                    }
                }
                None
            }
        },
    }
}

/// Parse a whole mechanism list (elements plus closing bracket); `i`
/// stands right after the opening bracket.
fn parse_mech_arr(s: &str, i: usize) -> (r: Option<(Vec<Mechanism>, usize)>)
    requires
        i <= s@.len(),
    ensures
        r is Some ==> ({
            &&& mech_arr_at(s@, i as int, r.unwrap().0@)
            &&& r.unwrap().1 == i + mechs_doc(r.unwrap().0@).len() + 1
            &&& r.unwrap().1 <= s@.len()
        }),
        r is None ==> forall|u: Seq<Mechanism>| !mech_arr_at(s@, i as int, u),
{
    let n: usize = s.unicode_len();
    if i < n {
        let c: char = s.get_char(i);
        if c == ']' {
            let empty: Vec<Mechanism> = Vec::new();
            proof {
                assert(mechs_doc(empty@) =~= Seq::<char>::empty());
                assert(s@.subrange(i as int, i + 1) =~= mechs_doc(empty@) + seq![']']);
            }
            return Some((empty, i + 1));
        }
        let mut acc: Vec<Mechanism> = Vec::new();
        let r = parse_mechs_elems(s, i, &mut acc);
        match r {
            Some(j) => {
                proof {
                    assert(acc@.skip(0) =~= acc@);
                }
                Some((acc, j))
            },
            None => {
                proof {
                    assert forall|u: Seq<Mechanism>| !mech_arr_at(s@, i as int, u) by {
                        if mech_arr_at(s@, i as int, u) {
                            if u.len() == 0 {
                                assert(mechs_doc(u) =~= Seq::<char>::empty());
                                assert(s@.subrange(i as int, i + 1) == mechs_doc(u) + seq![']']);
                                assert(s@.subrange(i as int, i + 1)[0] == s@[i as int]);
                                assert((mechs_doc(u) + seq![']'])[0] == ']');
                                assert(false);
                            }
                        }
                    }
                }
                None
            },
        }
    } else {
        proof {
            assert forall|u: Seq<Mechanism>| !mech_arr_at(s@, i as int, u) by {
                if mech_arr_at(s@, i as int, u) {
                    assert(i + mechs_doc(u).len() + 1 <= s@.len());
                }
            }
        }
        None
    }
}

/// Parse `true` or `false` at `i`.
fn parse_bool(s: &str, i: usize) -> (r: Option<(bool, usize)>)
    requires
        i <= s@.len(),
    ensures
        r is Some ==> ({
            &&& lit_at(s@, i as int, bool_doc(r.unwrap().0))
            &&& r.unwrap().1 == i + bool_doc(r.unwrap().0).len()
            &&& r.unwrap().1 <= s@.len()
        }),
        r is None ==> forall|b: bool| !lit_at(s@, i as int, bool_doc(b)),
{
    let t = expect_lit(s, i, "true");
    match t {
        Some(j) => Some((true, j)),
        None => {
            let f = expect_lit(s, i, "false");
            match f {
                Some(j) => Some((false, j)),
                None => None,
            }
        },
    }
}

// ---------------------------------------------------------------------------
// Uniqueness of list and boolean forms
// ---------------------------------------------------------------------------

/// Two byte lists at the same place hold the same bytes.
proof fn lemma_byte_arr_at_unique(t: Seq<char>, i: int, a: Seq<u8>, b: Seq<u8>)
    requires
        byte_arr_at(t, i, a),
        byte_arr_at(t, i, b),
    ensures
        a == b,
    decreases a.len(),
{
    if a.len() == 0 && b.len() == 0 {
        assert(a =~= b);
    } else if a.len() == 0 {
        assert(t.subrange(i, i + 1)[0] == t[i]);
        assert(bytes_doc(a) =~= Seq::<char>::empty());
        assert((bytes_doc(a) + seq![']'])[0] == ']');
        lemma_byte_arr_head(t, i, b);
        lemma_dec_digits(b[0] as int);
        assert(t.subrange(i, i + dec_of(b[0] as int).len() as int)[0] == t[i]);
        assert(is_digit(t[i]));
        assert(false);
    } else if b.len() == 0 {
        assert(t.subrange(i, i + 1)[0] == t[i]);
        assert(bytes_doc(b) =~= Seq::<char>::empty());
        assert((bytes_doc(b) + seq![']'])[0] == ']');
        lemma_byte_arr_head(t, i, a);
        lemma_dec_digits(a[0] as int);
        assert(t.subrange(i, i + dec_of(a[0] as int).len() as int)[0] == t[i]);
        assert(is_digit(t[i]));
        assert(false);
    } else {
        lemma_byte_arr_head(t, i, a);
        lemma_byte_arr_head(t, i, b);
        lemma_dec_at_unique(t, i, a[0] as int, b[0] as int);
        assert(a[0] == b[0]);
        let l = dec_of(a[0] as int).len() as int;
        if a.len() == 1 && b.len() > 1 {
            assert(t[i + l] == ']');
            assert(t[i + l] == ',');
            assert(false);
        }
        if b.len() == 1 && a.len() > 1 {
            assert(t[i + l] == ']');
            assert(t[i + l] == ',');
            assert(false);
        }
        if a.len() == 1 {
            assert(a =~= b);
        } else {
            lemma_byte_arr_at_unique(t, i + l + 2, a.drop_first(), b.drop_first());
            assert(a =~= b) by {
                assert forall|x: int| 0 <= x < a.len() implies a[x] == b[x] by {
                    if x > 0 {
                        assert(a[x] == a.drop_first()[x - 1]);
                        assert(b[x] == b.drop_first()[x - 1]);
                    }
                }
            }
        }
    }
}

/// Two mechanism lists at the same place hold the same mechanisms.
proof fn lemma_mech_arr_at_unique(t: Seq<char>, i: int, a: Seq<Mechanism>, b: Seq<Mechanism>)
    requires
        mech_arr_at(t, i, a),
        mech_arr_at(t, i, b),
    ensures
        a == b,
    decreases a.len(),
{
    if a.len() == 0 && b.len() == 0 {
        assert(a =~= b);
    } else if a.len() == 0 {
        assert(t.subrange(i, i + 1)[0] == t[i]);
        assert(mechs_doc(a) =~= Seq::<char>::empty());
        assert((mechs_doc(a) + seq![']'])[0] == ']');
        lemma_mech_arr_head(t, i, b);
        lemma_mech_item_qstr(t, i, b[0]);
        assert(false);
    } else if b.len() == 0 {
        assert(t.subrange(i, i + 1)[0] == t[i]);
        assert(mechs_doc(b) =~= Seq::<char>::empty());
        assert((mechs_doc(b) + seq![']'])[0] == ']');
        lemma_mech_arr_head(t, i, a);
        lemma_mech_item_qstr(t, i, a[0]);
        assert(false);
    } else {
        lemma_mech_arr_head(t, i, a);
        lemma_mech_arr_head(t, i, b);
        lemma_mech_item_qstr(t, i, a[0]);
        lemma_mech_item_qstr(t, i, b[0]);
        lemma_qstr_at_unique(t, i + 1, mech_name(a[0]), mech_name(b[0]));
        lemma_mech_names(a[0]);
        assert(a[0] == b[0]);
        let l = mech_item(a[0]).len() as int;
        if a.len() == 1 && b.len() > 1 {
            assert(t[i + l] == ']');
            assert(t[i + l] == ',');
            assert(false);
        }
        if b.len() == 1 && a.len() > 1 {
            assert(t[i + l] == ']');
            assert(t[i + l] == ',');
            assert(false);
        }
        if a.len() == 1 {
            assert(a =~= b);
        } else {
            lemma_mech_arr_at_unique(t, i + l + 2, a.drop_first(), b.drop_first());
            assert(a =~= b) by {
                assert forall|x: int| 0 <= x < a.len() implies a[x] == b[x] by {
                    if x > 0 {
                        assert(a[x] == a.drop_first()[x - 1]);
                        assert(b[x] == b.drop_first()[x - 1]);
                    }
                }
            }
        }
    }
}

/// `true` and `false` cannot stand at the same place.
proof fn lemma_bool_at_unique(t: Seq<char>, i: int, a: bool, b: bool)
    requires
        lit_at(t, i, bool_doc(a)),
        lit_at(t, i, bool_doc(b)),
    ensures
        a == b,
{
    if a != b {
        reveal_strlit("true");
        reveal_strlit("false");
        assert(t.subrange(i, i + bool_doc(a).len() as int)[0] == t[i]);
        assert(t.subrange(i, i + bool_doc(b).len() as int)[0] == t[i]);
        assert(false);
    }
}

// ---------------------------------------------------------------------------
// The document's layout
// ---------------------------------------------------------------------------

spec fn off_user() -> int {
    "[login]\nusername = \""@.len() as int
}

spec fn lo_pw_lit(l: LoginV) -> int {
    off_user() + esc(l.username).len() + 1
}

spec fn lo_pw(l: LoginV) -> int {
    lo_pw_lit(l) + "\npassword = ["@.len()
}

spec fn lo_nonce_lit(l: LoginV) -> int {
    lo_pw(l) + bytes_doc(l.password).len() + 1
}

spec fn lo_nonce(l: LoginV) -> int {
    lo_nonce_lit(l) + "\nnonce = ["@.len()
}

spec fn lo_end(l: LoginV) -> int {
    lo_nonce(l) + bytes_doc(l.nonce).len() + 1
}

spec fn ro_addr() -> int {
    "\n\n[relay]\naddr = \""@.len() as int
}

spec fn ro_port_lit(r: RelaySettingsV) -> int {
    ro_addr() + esc(r.addr).len() + 1
}

spec fn ro_port(r: RelaySettingsV) -> int {
    ro_port_lit(r) + "\nport = "@.len()
}

spec fn ro_tls_lit(r: RelaySettingsV) -> int {
    ro_port(r) + dec_of(r.port as int).len()
}

spec fn ro_tls(r: RelaySettingsV) -> int {
    ro_tls_lit(r) + "\ntls = "@.len()
}

spec fn ro_auth_lit(r: RelaySettingsV) -> int {
    ro_tls(r) + bool_doc(r.tls).len()
}

spec fn ro_auth(r: RelaySettingsV) -> int {
    ro_auth_lit(r) + "\nauthentication = ["@.len()
}

spec fn ro_nl(r: RelaySettingsV) -> int {
    ro_auth(r) + mechs_doc(r.authentication).len() + 1
}

/// Where each field of a login table stands, relative to its start.
#[verifier::rlimit(100)]
proof fn lemma_login_pieces(t: Seq<char>, i: int, l: LoginV)
    requires
        0 <= i,
        i + login_doc(l).len() <= t.len(),
        t.subrange(i, i + login_doc(l).len() as int) == login_doc(l),
    ensures
        lit_at(t, i, "[login]\nusername = \""@),
        qstr_at(t, i + off_user(), l.username),
        lit_at(t, i + lo_pw_lit(l), "\npassword = ["@),
        byte_arr_at(t, i + lo_pw(l), l.password),
        lit_at(t, i + lo_nonce_lit(l), "\nnonce = ["@),
        byte_arr_at(t, i + lo_nonce(l), l.nonce),
        login_doc(l).len() == lo_end(l),
{
    let q = login_doc(l);
    assert(forall|x: int| 0 <= x < q.len() ==> t[i + x] == #[trigger] q[x]) by {
        assert forall|x: int| 0 <= x < q.len() implies t[i + x] == #[trigger] q[x] by {
            assert(t.subrange(i, i + q.len() as int)[x] == t[i + x]);
        }
    }
    let p0 = "[login]\nusername = \""@;
    let p1 = esc(l.username) + seq!['"'];
    let p2 = "\npassword = ["@;
    let p3 = bytes_doc(l.password) + seq![']'];
    let p4 = "\nnonce = ["@;
    let p5 = bytes_doc(l.nonce) + seq![']'];
    assert(q == p0 + p1 + p2 + p3 + p4 + p5);
    assert(t.subrange(i, i + p0.len() as int) =~= p0) by {
        assert forall|x: int| 0 <= x < p0.len() implies t[i + x] == p0[x] by {
            assert(q[x] == p0[x]);
        }
    }
    assert(t.subrange(i + off_user(), i + lo_pw_lit(l)) =~= p1) by {
        assert forall|x: int| 0 <= x < p1.len() implies t[i + off_user() + x] == p1[x] by {
            assert(q[off_user() + x] == p1[x]);
        }
    }
    assert(t.subrange(i + lo_pw_lit(l), i + lo_pw(l)) =~= p2) by {
        assert forall|x: int| 0 <= x < p2.len() implies t[i + lo_pw_lit(l) + x] == p2[x] by {
            assert(q[lo_pw_lit(l) + x] == p2[x]);
        }
    }
    assert(t.subrange(i + lo_pw(l), i + lo_nonce_lit(l)) =~= p3) by {
        assert forall|x: int| 0 <= x < p3.len() implies t[i + lo_pw(l) + x] == p3[x] by {
            assert(q[lo_pw(l) + x] == p3[x]);
        }
    }
    assert(t.subrange(i + lo_nonce_lit(l), i + lo_nonce(l)) =~= p4) by {
        assert forall|x: int| 0 <= x < p4.len() implies t[i + lo_nonce_lit(l) + x] == p4[x] by {
            assert(q[lo_nonce_lit(l) + x] == p4[x]);
        }
    }
    assert(t.subrange(i + lo_nonce(l), i + lo_end(l)) =~= p5) by {
        assert forall|x: int| 0 <= x < p5.len() implies t[i + lo_nonce(l) + x] == p5[x] by {
            assert(q[lo_nonce(l) + x] == p5[x]);
        }
    }
}

/// Where each field of a relay table stands, relative to its start.
#[verifier::rlimit(100)]
proof fn lemma_relay_pieces(t: Seq<char>, i: int, r: RelaySettingsV)
    requires
        0 <= i,
        i + relay_doc(r).len() <= t.len(),
        t.subrange(i, i + relay_doc(r).len() as int) == relay_doc(r),
    ensures
        lit_at(t, i, "\n\n[relay]\naddr = \""@),
        qstr_at(t, i + ro_addr(), r.addr),
        lit_at(t, i + ro_port_lit(r), "\nport = "@),
        dec_at(t, i + ro_port(r), r.port as int),
        lit_at(t, i + ro_tls_lit(r), "\ntls = "@),
        lit_at(t, i + ro_tls(r), bool_doc(r.tls)),
        lit_at(t, i + ro_auth_lit(r), "\nauthentication = ["@),
        mech_arr_at(t, i + ro_auth(r), r.authentication),
        lit_at(t, i + ro_nl(r), seq!['\n']),
        relay_doc(r).len() == ro_nl(r) + 1,
{
    let q = relay_doc(r);
    assert(forall|x: int| 0 <= x < q.len() ==> t[i + x] == #[trigger] q[x]) by {
        assert forall|x: int| 0 <= x < q.len() implies t[i + x] == #[trigger] q[x] by {
            assert(t.subrange(i, i + q.len() as int)[x] == t[i + x]);
        }
    }
    let p0 = "\n\n[relay]\naddr = \""@;
    let p1 = esc(r.addr) + seq!['"'];
    let p2 = "\nport = "@;
    let p3 = dec_of(r.port as int);
    let p4 = "\ntls = "@;
    let p5 = bool_doc(r.tls);
    let p6 = "\nauthentication = ["@;
    let p7 = mechs_doc(r.authentication) + seq![']'];
    let p8 = seq!['\n'];
    assert(q == p0 + p1 + p2 + p3 + p4 + p5 + p6 + p7 + p8);
    assert(t.subrange(i, i + p0.len() as int) =~= p0) by {
        assert forall|x: int| 0 <= x < p0.len() implies t[i + x] == p0[x] by {
            assert(q[x] == p0[x]);
        }
    }
    assert(t.subrange(i + ro_addr(), i + ro_port_lit(r)) =~= p1) by {
        assert forall|x: int| 0 <= x < p1.len() implies t[i + ro_addr() + x] == p1[x] by {
            assert(q[ro_addr() + x] == p1[x]);
        }
    }
    assert(t.subrange(i + ro_port_lit(r), i + ro_port(r)) =~= p2) by {
        assert forall|x: int| 0 <= x < p2.len() implies t[i + ro_port_lit(r) + x] == p2[x] by {
            assert(q[ro_port_lit(r) + x] == p2[x]);
        }
    }
    assert(t.subrange(i + ro_port(r), i + ro_tls_lit(r)) =~= p3) by {
        assert forall|x: int| 0 <= x < p3.len() implies t[i + ro_port(r) + x] == p3[x] by {
            assert(q[ro_port(r) + x] == p3[x]);
        }
    }
    assert(t.subrange(i + ro_tls_lit(r), i + ro_tls(r)) =~= p4) by {
        assert forall|x: int| 0 <= x < p4.len() implies t[i + ro_tls_lit(r) + x] == p4[x] by {
            assert(q[ro_tls_lit(r) + x] == p4[x]);
        }
    }
    assert(t.subrange(i + ro_tls(r), i + ro_auth_lit(r)) =~= p5) by {
        assert forall|x: int| 0 <= x < p5.len() implies t[i + ro_tls(r) + x] == p5[x] by {
            assert(q[ro_tls(r) + x] == p5[x]);
        }
    }
    assert(t.subrange(i + ro_auth_lit(r), i + ro_auth(r)) =~= p6) by {
        assert forall|x: int| 0 <= x < p6.len() implies t[i + ro_auth_lit(r) + x] == p6[x] by {
            assert(q[ro_auth_lit(r) + x] == p6[x]);
        }
    }
    assert(t.subrange(i + ro_auth(r), i + ro_nl(r)) =~= p7) by {
        assert forall|x: int| 0 <= x < p7.len() implies t[i + ro_auth(r) + x] == p7[x] by {
            assert(q[ro_auth(r) + x] == p7[x]);
        }
    }
    assert(t.subrange(i + ro_nl(r), i + ro_nl(r) + 1) =~= p8) by {
        assert forall|x: int| 0 <= x < p8.len() implies t[i + ro_nl(r) + x] == p8[x] by {
            assert(q[ro_nl(r) + x] == p8[x]);
        }
    }
    // The port's digit run ends at the following literal.
    assert(dec_at(t, i + ro_port(r), r.port as int)) by {
        reveal_strlit("\ntls = ");
        assert(t.subrange(i + ro_tls_lit(r), i + ro_tls(r))[0] == t[i + ro_tls_lit(r)]);
        assert(t[i + ro_tls_lit(r)] == '\n');
    }
}

/// Whether the whole login table of `l` opens `t`.
spec fn login_at(t: Seq<char>, l: LoginV) -> bool {
    &&& lo_end(l) <= t.len()
    &&& t.subrange(0, lo_end(l)) == login_doc(l)
}

/// Whether the whole relay table of `r` stands at `i` in `t`.
spec fn relay_at(t: Seq<char>, i: int, r: RelaySettingsV) -> bool {
    &&& 0 <= i
    &&& i + ro_nl(r) + 1 <= t.len()
    &&& t.subrange(i, i + ro_nl(r) + 1) == relay_doc(r)
}

/// A document splits into its login table and its relay table.
proof fn lemma_doc_halves(t: Seq<char>, c: ConfigV)
    requires
        t == doc_of(c),
    ensures
        login_at(t, c.login),
        relay_at(t, lo_end(c.login), c.relay_settings),
        t.len() == lo_end(c.login) + ro_nl(c.relay_settings) + 1,
{
    let ld = login_doc(c.login);
    let rd = relay_doc(c.relay_settings);
    assert(t == ld + rd);
    assert(t.subrange(0, ld.len() as int) =~= ld);
    assert(t.subrange(ld.len() as int, t.len() as int) =~= rd);
    lemma_login_pieces(t, 0, c.login);
    lemma_relay_pieces(t, ld.len() as int, c.relay_settings);
}

/// Two login tables opening the same text are equal.
proof fn lemma_login_at_unique(t: Seq<char>, a: LoginV, b: LoginV)
    requires
        login_at(t, a),
        login_at(t, b),
    ensures
        a == b,
{
    lemma_login_pieces(t, 0, a);
    lemma_login_pieces(t, 0, b);
    lemma_qstr_at_unique(t, off_user(), a.username, b.username);
    lemma_byte_arr_at_unique(t, lo_pw(a), a.password, b.password);
    lemma_byte_arr_at_unique(t, lo_nonce(a), a.nonce, b.nonce);
}

/// Two relay tables at the same place are equal.
proof fn lemma_relay_at_unique(t: Seq<char>, i: int, a: RelaySettingsV, b: RelaySettingsV)
    requires
        relay_at(t, i, a),
        relay_at(t, i, b),
    ensures
        a == b,
{
    lemma_relay_pieces(t, i, a);
    lemma_relay_pieces(t, i, b);
    lemma_qstr_at_unique(t, i + ro_addr(), a.addr, b.addr);
    lemma_dec_at_unique(t, i + ro_port(a), a.port as int, b.port as int);
    lemma_bool_at_unique(t, i + ro_tls(a), a.tls, b.tls);
    lemma_mech_arr_at_unique(t, i + ro_auth(a), a.authentication, b.authentication);
}

/// The document text pins the config: the format is injective.
pub proof fn lemma_doc_of_injective(a: ConfigV, b: ConfigV)
    requires
        doc_of(a) == doc_of(b),
    ensures
        a == b,
{
    let t = doc_of(a);
    lemma_doc_halves(t, a);
    lemma_doc_halves(t, b);
    lemma_login_at_unique(t, a.login, b.login);
    lemma_relay_at_unique(t, lo_end(a.login), a.relay_settings, b.relay_settings);
}

/// Serialize `c` into the stable key-value document this tool persists.
pub fn to_document(c: &Config) -> (r: String)
    ensures
        r@ == doc_of(c@),
{
    let mut out = String::new();
    out.append("[login]\nusername = \"");
    emit_escaped_from(&mut out, c.login.username.as_str(), 0);
    push_char(&mut out, '"');
    out.append("\npassword = [");
    emit_bytes_from(&mut out, &c.login.password, 0);
    push_char(&mut out, ']');
    out.append("\nnonce = [");
    emit_bytes_from(&mut out, &c.login.nonce, 0);
    push_char(&mut out, ']');
    let ghost half = out@;
    proof {
        assert(c.login.username@.skip(0) =~= c.login.username@);
        assert(c.login.password@.skip(0) =~= c.login.password@);
        assert(c.login.nonce@.skip(0) =~= c.login.nonce@);
        assert(half =~= login_doc(c.login@));
    }
    out.append("\n\n[relay]\naddr = \"");
    emit_escaped_from(&mut out, c.relay_settings.addr.as_str(), 0);
    push_char(&mut out, '"');
    out.append("\nport = ");
    emit_dec(&mut out, c.relay_settings.port as u32);
    out.append("\ntls = ");
    if c.relay_settings.tls {
        out.append("true");
    } else {
        out.append("false");
    }
    out.append("\nauthentication = [");
    emit_mechs_from(&mut out, &c.relay_settings.authentication, 0);
    push_char(&mut out, ']');
    push_char(&mut out, '\n');
    proof {
        assert(c.relay_settings.addr@.skip(0) =~= c.relay_settings.addr@);
        assert(c.relay_settings.authentication@.skip(0) =~= c.relay_settings.authentication@);
        assert(out@ =~= half + relay_doc(c.relay_settings@));
        assert(out@ == doc_of(c@));
    }
    out
}

// ---------------------------------------------------------------------------
// The whole parser
// ---------------------------------------------------------------------------

/// Parse the login table at the start of the text.
#[verifier::rlimit(100)]
fn parse_login(s: &str) -> (r: Option<(Login, usize)>)
    ensures
        r is Some ==> ({
            &&& login_at(s@, r.unwrap().0@)
            &&& r.unwrap().1 == lo_end(r.unwrap().0@)
            &&& r.unwrap().1 <= s@.len()
        }),
        r is None ==> forall|l: LoginV| !login_at(s@, l),
{
    let r1 = expect_lit(s, 0, "[login]\nusername = \"");
    let i1: usize = match r1 {
        Some(j) => j,
        None => {
            proof {
                assert forall|l: LoginV| !login_at(s@, l) by {
                    if login_at(s@, l) {
                        lemma_login_pieces(s@, 0, l);
                    }
                }
            }
            return None;
        },
    };
    let r2 = parse_qstring(s, i1);
    let (username, i2): (String, usize) = match r2 {
        Some(p) => p,
        None => {
            proof {
                assert forall|l: LoginV| !login_at(s@, l) by {
                    if login_at(s@, l) {
                        lemma_login_pieces(s@, 0, l);
                    }
                }
            }
            return None;
        },
    };
    let r3 = expect_lit(s, i2, "\npassword = [");
    let i3: usize = match r3 {
        Some(j) => j,
        None => {
            proof {
                assert forall|l: LoginV| !login_at(s@, l) by {
                    if login_at(s@, l) {
                        lemma_login_pieces(s@, 0, l);
                        lemma_qstr_at_unique(s@, off_user(), username@, l.username);
                    }
                }
            }
            return None;
        },
    };
    let r4 = parse_byte_arr(s, i3);
    let (password, i4): (Vec<u8>, usize) = match r4 {
        Some(p) => p,
        None => {
            proof {
                assert forall|l: LoginV| !login_at(s@, l) by {
                    if login_at(s@, l) {
                        lemma_login_pieces(s@, 0, l);
                        lemma_qstr_at_unique(s@, off_user(), username@, l.username);
                    }
                }
            }
            return None;
        },
    };
    let r5 = expect_lit(s, i4, "\nnonce = [");
    let i5: usize = match r5 {
        Some(j) => j,
        None => {
            proof {
                assert forall|l: LoginV| !login_at(s@, l) by {
                    if login_at(s@, l) {
                        lemma_login_pieces(s@, 0, l);
                        lemma_qstr_at_unique(s@, off_user(), username@, l.username);
                        lemma_byte_arr_at_unique(s@, lo_pw(l), password@, l.password);
                    }
                }
            }
            return None;
        },
    };
    let r6 = parse_byte_arr(s, i5);
    let (nonce, i6): (Vec<u8>, usize) = match r6 {
        Some(p) => p,
        None => {
            proof {
                assert forall|l: LoginV| !login_at(s@, l) by {
                    if login_at(s@, l) {
                        lemma_login_pieces(s@, 0, l);
                        lemma_qstr_at_unique(s@, off_user(), username@, l.username);
                        lemma_byte_arr_at_unique(s@, lo_pw(l), password@, l.password);
                    }
                }
            }
            return None;
        },
    };
    let login = Login { username, password, nonce };
    proof {
        let lv = login@;
        assert(s@.subrange(0, i2 as int) =~= s@.subrange(0, i1 as int) + s@.subrange(
            i1 as int,
            i2 as int,
        ));
        assert(s@.subrange(0, i3 as int) =~= s@.subrange(0, i2 as int) + s@.subrange(
            i2 as int,
            i3 as int,
        ));
        assert(s@.subrange(0, i4 as int) =~= s@.subrange(0, i3 as int) + s@.subrange(
            i3 as int,
            i4 as int,
        ));
        assert(s@.subrange(0, i5 as int) =~= s@.subrange(0, i4 as int) + s@.subrange(
            i4 as int,
            i5 as int,
        ));
        assert(s@.subrange(0, i6 as int) =~= s@.subrange(0, i5 as int) + s@.subrange(
            i5 as int,
            i6 as int,
        ));
        assert(s@.subrange(0, i6 as int) == login_doc(lv));
    }
    Some((login, i6))
}

/// Stitch the nine relay pieces back into one relay table.
#[verifier::rlimit(100)]
proof fn lemma_relay_assemble(
    t: Seq<char>,
    i: int,
    rv: RelaySettingsV,
    i7: int,
    i8: int,
    i9: int,
    i10: int,
    i11: int,
    i12: int,
    i13: int,
    i14: int,
    i15: int,
)
    requires
        0 <= i <= i7 <= i8 <= i9 <= i10 <= i11 <= i12 <= i13 <= i14 <= i15 <= t.len(),
        t.subrange(i, i7) == "\n\n[relay]\naddr = \""@,
        t.subrange(i7, i8) == esc(rv.addr) + seq!['"'],
        t.subrange(i8, i9) == "\nport = "@,
        t.subrange(i9, i10) == dec_of(rv.port as int),
        t.subrange(i10, i11) == "\ntls = "@,
        t.subrange(i11, i12) == bool_doc(rv.tls),
        t.subrange(i12, i13) == "\nauthentication = ["@,
        t.subrange(i13, i14) == mechs_doc(rv.authentication) + seq![']'],
        t.subrange(i14, i15) == "\n"@,
    ensures
        t.subrange(i, i15) == relay_doc(rv),
        i15 == i + ro_nl(rv) + 1,
{
    reveal_strlit("\n");
    assert("\n"@ =~= seq!['\n']);
    assert(t.subrange(i, i8) =~= t.subrange(i, i7) + t.subrange(i7, i8));
    assert(t.subrange(i, i9) =~= t.subrange(i, i8) + t.subrange(i8, i9));
    assert(t.subrange(i, i10) =~= t.subrange(i, i9) + t.subrange(i9, i10));
    assert(t.subrange(i, i11) =~= t.subrange(i, i10) + t.subrange(i10, i11));
    assert(t.subrange(i, i12) =~= t.subrange(i, i11) + t.subrange(i11, i12));
    assert(t.subrange(i, i13) =~= t.subrange(i, i12) + t.subrange(i12, i13));
    assert(t.subrange(i, i14) =~= t.subrange(i, i13) + t.subrange(i13, i14));
    assert(t.subrange(i, i15) =~= t.subrange(i, i14) + t.subrange(i14, i15));
    assert(t.subrange(i, i15) =~= relay_doc(rv));
}

/// Parse the relay table at `i`.
#[verifier::rlimit(100)]
fn parse_relay(s: &str, i: usize) -> (r: Option<(RelaySettings, usize)>)
    requires
        i <= s@.len(),
    ensures
        r is Some ==> ({
            &&& relay_at(s@, i as int, r.unwrap().0@)
            &&& r.unwrap().1 == i + ro_nl(r.unwrap().0@) + 1
            &&& r.unwrap().1 <= s@.len()
        }),
        r is None ==> forall|v: RelaySettingsV| !relay_at(s@, i as int, v),
{
    let r7 = expect_lit(s, i, "\n\n[relay]\naddr = \"");
    let i7: usize = match r7 {
        Some(j) => j,
        None => {
            proof {
                assert forall|v: RelaySettingsV| !relay_at(s@, i as int, v) by {
                    if relay_at(s@, i as int, v) {
                        lemma_relay_pieces(s@, i as int, v);
                    }
                }
            }
            return None;
        },
    };
    let r8 = parse_qstring(s, i7);
    let (addr, i8): (String, usize) = match r8 {
        Some(p) => p,
        None => {
            proof {
                assert forall|v: RelaySettingsV| !relay_at(s@, i as int, v) by {
                    if relay_at(s@, i as int, v) {
                        lemma_relay_pieces(s@, i as int, v);
                    }
                }
            }
            return None;
        },
    };
    let r9 = expect_lit(s, i8, "\nport = ");
    let i9: usize = match r9 {
        Some(j) => j,
        None => {
            proof {
                assert forall|v: RelaySettingsV| !relay_at(s@, i as int, v) by {
                    if relay_at(s@, i as int, v) {
                        lemma_relay_pieces(s@, i as int, v);
                        lemma_qstr_at_unique(s@, i + ro_addr(), addr@, v.addr);
                    }
                }
            }
            return None;
        },
    };
    let r10 = parse_dec(s, i9, 65535);
    let (port, i10): (u32, usize) = match r10 {
        Some(p) => p,
        None => {
            proof {
                assert forall|v: RelaySettingsV| !relay_at(s@, i as int, v) by {
                    if relay_at(s@, i as int, v) {
                        lemma_relay_pieces(s@, i as int, v);
                        lemma_qstr_at_unique(s@, i + ro_addr(), addr@, v.addr);
                    }
                }
            }
            return None;
        },
    };
    let r11 = expect_lit(s, i10, "\ntls = ");
    let i11: usize = match r11 {
        Some(j) => j,
        None => {
            proof {
                assert forall|v: RelaySettingsV| !relay_at(s@, i as int, v) by {
                    if relay_at(s@, i as int, v) {
                        lemma_relay_pieces(s@, i as int, v);
                        lemma_qstr_at_unique(s@, i + ro_addr(), addr@, v.addr);
                        lemma_dec_at_unique(s@, i + ro_port(v), port as int, v.port as int);
                    }
                }
            }
            return None;
        },
    };
    let r12 = parse_bool(s, i11);
    let (tls, i12): (bool, usize) = match r12 {
        Some(p) => p,
        None => {
            proof {
                assert forall|v: RelaySettingsV| !relay_at(s@, i as int, v) by {
                    if relay_at(s@, i as int, v) {
                        lemma_relay_pieces(s@, i as int, v);
                        lemma_qstr_at_unique(s@, i + ro_addr(), addr@, v.addr);
                        lemma_dec_at_unique(s@, i + ro_port(v), port as int, v.port as int);
                    }
                }
            }
            return None;
        },
    };
    let r13 = expect_lit(s, i12, "\nauthentication = [");
    let i13: usize = match r13 {
        Some(j) => j,
        None => {
            proof {
                assert forall|v: RelaySettingsV| !relay_at(s@, i as int, v) by {
                    if relay_at(s@, i as int, v) {
                        lemma_relay_pieces(s@, i as int, v);
                        lemma_qstr_at_unique(s@, i + ro_addr(), addr@, v.addr);
                        lemma_dec_at_unique(s@, i + ro_port(v), port as int, v.port as int);
                        lemma_bool_at_unique(s@, i + ro_tls(v), tls, v.tls);
                    }
                }
            }
            return None;
        },
    };
    let r14 = parse_mech_arr(s, i13);
    let (auth, i14): (Vec<Mechanism>, usize) = match r14 {
        Some(p) => p,
        None => {
            proof {
                assert forall|v: RelaySettingsV| !relay_at(s@, i as int, v) by {
                    if relay_at(s@, i as int, v) {
                        lemma_relay_pieces(s@, i as int, v);
                        lemma_qstr_at_unique(s@, i + ro_addr(), addr@, v.addr);
                        lemma_dec_at_unique(s@, i + ro_port(v), port as int, v.port as int);
                        lemma_bool_at_unique(s@, i + ro_tls(v), tls, v.tls);
                    }
                }
            }
            return None;
        },
    };
    let r15 = expect_lit(s, i14, "\n");
    let i15: usize = match r15 {
        Some(j) => j,
        None => {
            proof {
                assert forall|v: RelaySettingsV| !relay_at(s@, i as int, v) by {
                    if relay_at(s@, i as int, v) {
                        lemma_relay_pieces(s@, i as int, v);
                        lemma_qstr_at_unique(s@, i + ro_addr(), addr@, v.addr);
                        lemma_dec_at_unique(s@, i + ro_port(v), port as int, v.port as int);
                        lemma_bool_at_unique(s@, i + ro_tls(v), tls, v.tls);
                        lemma_mech_arr_at_unique(s@, i + ro_auth(v), auth@, v.authentication);
                        reveal_strlit("\n");
                        assert("\n"@ =~= seq!['\n']);
                    }
                }
            }
            return None;
        },
    };
    let relay = RelaySettings { addr, port: port as u16, tls, authentication: auth };
    proof {
        let rv = relay@;
        assert(dec_of(rv.port as int) == dec_of(port as int));
        lemma_relay_assemble(
            s@,
            i as int,
            rv,
            i7 as int,
            i8 as int,
            i9 as int,
            i10 as int,
            i11 as int,
            i12 as int,
            i13 as int,
            i14 as int,
            i15 as int,
        );
    }
    Some((relay, i15))
}

/// Parse a persisted document. Exactly the canonical texts that
/// [`doc_of`] gives to structurally valid configs are accepted, and the
/// accepted text is the document of the returned config.
pub fn parse_document(s: &str) -> (r: Option<Config>)
    ensures
        r is Some ==> config_valid(r.unwrap()@) && s@ == doc_of(r.unwrap()@),
        r is None ==> forall|c: ConfigV| config_valid(c) ==> s@ != doc_of(c),
{
    let n: usize = s.unicode_len();
    let rl = parse_login(s);
    let (login, i6): (Login, usize) = match rl {
        Some(p) => p,
        None => {
            proof {
                assert forall|c: ConfigV| config_valid(c) implies s@ != doc_of(c) by {
                    if s@ == doc_of(c) {
                        lemma_doc_halves(s@, c);
                    }
                }
            }
            return None;
        },
    };
    let rr = parse_relay(s, i6);
    let (relay, i15): (RelaySettings, usize) = match rr {
        Some(p) => p,
        None => {
            proof {
                assert forall|c: ConfigV| config_valid(c) implies s@ != doc_of(c) by {
                    if s@ == doc_of(c) {
                        lemma_doc_halves(s@, c);
                        lemma_login_at_unique(s@, login@, c.login);
                    }
                }
            }
            return None;
        },
    };
    let consumed_all: bool = i15 == n;
    let nonce_ok: bool = login.nonce.len() == 12;
    let port_ok: bool = relay.port >= 1;
    let auth_ok: bool = relay.authentication.len() >= 1;
    if !(consumed_all && nonce_ok && port_ok && auth_ok) {
        proof {
            assert forall|c: ConfigV| config_valid(c) implies s@ != doc_of(c) by {
                if s@ == doc_of(c) {
                    lemma_doc_halves(s@, c);
                    lemma_login_at_unique(s@, login@, c.login);
                    lemma_relay_at_unique(s@, i6 as int, relay@, c.relay_settings);
                }
            }
        }
        return None;
    }
    let config = Config { login, relay_settings: relay };
    proof {
        assert(s@ =~= s@.subrange(0, i6 as int) + s@.subrange(i6 as int, i15 as int));
        assert(s@ == doc_of(config@));
    }
    Some(config)
}

} // verus!
