use vstd::prelude::*;
use crate::cookies::CookieJar;
use crate::cookies::CookieRecord;
use crate::cookies::SameSite;
use crate::error::HttpError;
use crate::text::text_char_ok;
use crate::text::text_ok;

verus! {

/// The mathematical content of one stored cookie: what the persisted
/// document encodes, independent of the executable representation.
pub struct CookieRecSpec {
    pub domain: Seq<char>,
    pub path: Seq<char>,
    pub name: Seq<char>,
    pub value: Seq<char>,
    pub expiry: Option<u64>,
    pub secure: bool,
    pub http_only: bool,
    pub same_site: SameSite,
}

/// All four strings of the record are JSON-safe text.
pub open spec fn rec_spec_wf(r: CookieRecSpec) -> bool {
    text_ok(r.domain) && text_ok(r.path) && text_ok(r.name) && text_ok(r.value)
}

/// `{"domain":"`
pub open spec fn h_domain() -> Seq<char> {
    seq!['{', '"', 'd', 'o', 'm', 'a', 'i', 'n', '"', ':', '"']
}

/// `","path":"`
pub open spec fn h_path() -> Seq<char> {
    seq!['"', ',', '"', 'p', 'a', 't', 'h', '"', ':', '"']
}

/// `","name":"`
pub open spec fn h_name() -> Seq<char> {
    seq!['"', ',', '"', 'n', 'a', 'm', 'e', '"', ':', '"']
}

/// `","value":"`
pub open spec fn h_value() -> Seq<char> {
    seq!['"', ',', '"', 'v', 'a', 'l', 'u', 'e', '"', ':', '"']
}

/// `","expiry":`
pub open spec fn h_expiry() -> Seq<char> {
    seq!['"', ',', '"', 'e', 'x', 'p', 'i', 'r', 'y', '"', ':']
}

/// `,"secure":`
pub open spec fn h_secure() -> Seq<char> {
    seq![',', '"', 's', 'e', 'c', 'u', 'r', 'e', '"', ':']
}

/// `,"http_only":`
pub open spec fn h_http() -> Seq<char> {
    seq![',', '"', 'h', 't', 't', 'p', '_', 'o', 'n', 'l', 'y', '"', ':']
}

/// `,"same_site":"`
pub open spec fn h_same() -> Seq<char> {
    seq![',', '"', 's', 'a', 'm', 'e', '_', 's', 'i', 't', 'e', '"', ':', '"']
}

/// `"}`
pub open spec fn lit_end() -> Seq<char> {
    seq!['"', '}']
}

pub open spec fn lit_true() -> Seq<char> {
    seq!['t', 'r', 'u', 'e']
}

pub open spec fn lit_false() -> Seq<char> {
    seq!['f', 'a', 'l', 's', 'e']
}

pub open spec fn lit_null() -> Seq<char> {
    seq!['n', 'u', 'l', 'l']
}

pub open spec fn kw_unset() -> Seq<char> {
    seq!['u', 'n', 's', 'e', 't']
}

pub open spec fn kw_none() -> Seq<char> {
    seq!['n', 'o', 'n', 'e']
}

pub open spec fn kw_lax() -> Seq<char> {
    seq!['l', 'a', 'x']
}

pub open spec fn kw_strict() -> Seq<char> {
    seq!['s', 't', 'r', 'i', 'c', 't']
}

pub open spec fn pow10(k: nat) -> nat
    decreases k,
{
    if k == 0 {
        1
    } else {
        10 * pow10((k - 1) as nat)
    }
}

pub open spec fn digit_char(d: int) -> char {
    if d == 0 {
        '0'
    } else if d == 1 {
        '1'
    } else if d == 2 {
        '2'
    } else if d == 3 {
        '3'
    } else if d == 4 {
        '4'
    } else if d == 5 {
        '5'
    } else if d == 6 {
        '6'
    } else if d == 7 {
        '7'
    } else if d == 8 {
        '8'
    } else {
        '9'
    }
}

pub open spec fn is_digit(c: char) -> bool {
    '0' <= c && c <= '9'
}

pub open spec fn digit_val(c: char) -> int {
    if c == '0' {
        0
    } else if c == '1' {
        1
    } else if c == '2' {
        2
    } else if c == '3' {
        3
    } else if c == '4' {
        4
    } else if c == '5' {
        5
    } else if c == '6' {
        6
    } else if c == '7' {
        7
    } else if c == '8' {
        8
    } else {
        9
    }
}

/// The number `n` written as exactly `k` decimal digits, most significant
/// first, zero-padded on the left.
pub open spec fn fixed_digits(n: nat, k: nat) -> Seq<char>
    decreases k,
{
    if k == 0 {
        Seq::empty()
    } else {
        seq![digit_char(((n / pow10((k - 1) as nat)) % 10) as int)] + fixed_digits(
            n,
            (k - 1) as nat,
        )
    }
}

/// Reads exactly `k` decimal digits off the front of `s`, folding them onto
/// `acc` most-significant-first.
pub open spec fn scan_digits(s: Seq<char>, k: nat, acc: nat) -> Option<(nat, Seq<char>)>
    decreases k,
{
    if k == 0 {
        Some((acc, s))
    } else if s.len() > 0 && is_digit(s[0]) {
        scan_digits(s.skip(1), (k - 1) as nat, acc * 10 + digit_val(s[0]) as nat)
    } else {
        None
    }
}

/// Consumes the literal `lit` off the front of `s`.
pub open spec fn expect(s: Seq<char>, lit: Seq<char>) -> Option<Seq<char>> {
    if lit.len() <= s.len() && s.subrange(0, lit.len() as int) == lit {
        Some(s.skip(lit.len() as int))
    } else {
        None
    }
}

/// Reads string content up to (but not past) the next `"`; only JSON-safe
/// text is accepted.
pub open spec fn scan_text(s: Seq<char>) -> Option<(Seq<char>, Seq<char>)>
    decreases s.len(),
{
    if s.len() == 0 {
        None
    } else if s[0] == '"' {
        Some((Seq::empty(), s))
    } else if text_char_ok(s[0]) {
        match scan_text(s.skip(1)) {
            Some(p) => Some((seq![s[0]] + p.0, p.1)),
            None => None,
        }
    } else {
        None
    }
}

/// Consuming a literal off its own front leaves exactly the tail.
pub proof fn lemma_expect_prefix(lit: Seq<char>, rest: Seq<char>)
    ensures
        expect(lit + rest, lit) == Some(rest),
{
    assert((lit + rest).subrange(0, lit.len() as int) =~= lit);
    assert((lit + rest).skip(lit.len() as int) =~= rest);
}

/// A literal that differs at some reachable position is not consumed.
pub proof fn lemma_expect_mismatch(s: Seq<char>, lit: Seq<char>, j: int)
    requires
        0 <= j < lit.len(),
        j < s.len(),
        s[j] != lit[j],
    ensures
        expect(s, lit) is None,
{
    if lit.len() <= s.len() {
        assert(s.subrange(0, lit.len() as int)[j] == s[j]);
    }
}

/// Scanning serialized text stops exactly at the closing quote.
pub proof fn lemma_scan_text_rt(c: Seq<char>, rest: Seq<char>)
    requires
        text_ok(c),
        rest.len() > 0,
        rest[0] == '"',
    ensures
        scan_text(c + rest) == Some((c, rest)),
    decreases c.len(),
{
    let s = c + rest;
    if c.len() == 0 {
        assert(s =~= rest);
    } else {
        assert(text_char_ok(c[0]));
        assert(s[0] == c[0]);
        assert(s[0] != '"');
        let c1 = c.skip(1);
        assert(text_ok(c1)) by {
            assert(forall|i: int| 0 <= i < c1.len() ==> c1[i] == c[i + 1]);
        }
        lemma_scan_text_rt(c1, rest);
        assert(s.skip(1) =~= c1 + rest);
        assert(seq![s[0]] + c1 =~= c);
    }
}

/// Ten raised to anything is positive, and grows with the exponent.
pub proof fn lemma_pow10_pos(k: nat)
    ensures
        pow10(k) >= 1,
    decreases k,
{
    if k > 0 {
        lemma_pow10_pos((k - 1) as nat);
    }
}

/// The concrete powers of ten the codec relies on.
pub proof fn lemma_pow10_values()
    ensures
        pow10(19) == 10_000_000_000_000_000_000,
        pow10(20) == 100_000_000_000_000_000_000,
        u64::MAX < pow10(20),
{
    assert(pow10(0) == 1);
    assert(pow10(1) == 10);
    assert(pow10(2) == 100);
    assert(pow10(3) == 1000);
    assert(pow10(4) == 10000);
    assert(pow10(5) == 100000);
    assert(pow10(6) == 1000000);
    assert(pow10(7) == 10000000);
    assert(pow10(8) == 100000000);
    assert(pow10(9) == 1000000000);
    assert(pow10(10) == 10000000000);
    assert(pow10(11) == 100000000000);
    assert(pow10(12) == 1000000000000);
    assert(pow10(13) == 10000000000000);
    assert(pow10(14) == 100000000000000);
    assert(pow10(15) == 1000000000000000);
    assert(pow10(16) == 10000000000000000);
    assert(pow10(17) == 100000000000000000);
    assert(pow10(18) == 1000000000000000000);
    assert(pow10(19) == 10_000_000_000_000_000_000);
    assert(pow10(20) == 100_000_000_000_000_000_000);
}

/// Scanning the fixed-width digits of `n` folds back to `n` modulo the
/// width, whatever follows them.
pub proof fn lemma_scan_digits_rt(n: nat, k: nat, acc: nat, rest: Seq<char>)
    ensures
        scan_digits(fixed_digits(n, k) + rest, k, acc) == Some(
            ((acc * pow10(k) + n % pow10(k)) as nat, rest),
        ),
    decreases k,
{
    lemma_pow10_pos(k);
    if k == 0 {
        assert(fixed_digits(n, 0) + rest =~= rest);
        assert(n % 1 == 0);
        assert(pow10(0) == 1);
        assert(scan_digits(fixed_digits(n, 0) + rest, 0, acc) == Some((acc, rest)));
        assert(acc * pow10(0) + n % pow10(0) == acc) by (nonlinear_arith)
            requires
                pow10(0) == 1,
        ;
    } else {
        let km1 = (k - 1) as nat;
        lemma_pow10_pos(km1);
        let p = pow10(km1);
        let d = (n / p) % 10;
        let s = fixed_digits(n, k) + rest;
        assert(s[0] == digit_char(d as int));
        assert(is_digit(digit_char(d as int)));
        assert(digit_val(digit_char(d as int)) == d);
        assert(s.skip(1) =~= fixed_digits(n, km1) + rest);
        lemma_scan_digits_rt(n, km1, acc * 10 + d, rest);
        assert((acc * 10 + d) * p == acc * (10 * p) + d * p) by (nonlinear_arith);
        assert(pow10(k) == 10 * p);
        assert(acc * (10 * p) == acc * pow10(k));
        assert(d * p + n % p == n % (10 * p)) by {
            vstd::arithmetic::div_mod::lemma_breakdown(n as int, p as int, 10);
            assert(p * 10 == 10 * p);
            assert(p * ((n as int / p as int) % 10) == d * p) by (nonlinear_arith)
                requires
                    d == (n / p) % 10,
                    p > 0,
                    n >= 0,
            ;
        }
        assert(s.len() > 0 && is_digit(s[0]));
        assert((acc * 10 + digit_val(s[0])) as nat == acc * 10 + d);
        assert(scan_digits(s, k, acc) == scan_digits(
            s.skip(1),
            km1,
            (acc * 10 + digit_val(s[0])) as nat,
        ));
        assert(scan_digits(s.skip(1), km1, acc * 10 + d) == Some(
            (((acc * 10 + d) * pow10(km1) + n % pow10(km1)) as nat, rest),
        ));
        assert((acc * 10 + d) * p + n % p == acc * pow10(k) + n % pow10(k));
    }
}

/// The serialized expiry: `null` for a session cookie, else the epoch
/// seconds as a quoted fixed-width decimal (JSON numbers forbid the leading
/// zeros a fixed width needs).
pub open spec fn ser_expiry(e: Option<u64>) -> Seq<char> {
    match e {
        Option::None => lit_null(),
        Option::Some(n) => seq!['"'] + fixed_digits(n as nat, 20) + seq!['"'],
    }
}

pub open spec fn ser_bool(b: bool) -> Seq<char> {
    if b {
        lit_true()
    } else {
        lit_false()
    }
}

pub open spec fn ser_same(ss: SameSite) -> Seq<char> {
    match ss {
        SameSite::Unset => kw_unset(),
        SameSite::CrossSite => kw_none(),
        SameSite::Lax => kw_lax(),
        SameSite::Strict => kw_strict(),
    }
}

/// One record as one JSON object, fields in fixed order.
pub open spec fn ser_rec(r: CookieRecSpec) -> Seq<char> {
    h_domain() + r.domain + h_path() + r.path + h_name() + r.name + h_value() + r.value
        + h_expiry() + ser_expiry(r.expiry) + h_secure() + ser_bool(r.secure) + h_http()
        + ser_bool(r.http_only) + h_same() + ser_same(r.same_site) + lit_end()
}

/// The records of a non-empty jar, comma-separated.
pub open spec fn ser_records(rs: Seq<CookieRecSpec>) -> Seq<char>
    decreases rs.len(),
{
    if rs.len() == 0 {
        Seq::empty()
    } else if rs.len() == 1 {
        ser_rec(rs[0])
    } else {
        ser_rec(rs[0]) + seq![','] + ser_records(rs.drop_first())
    }
}

/// The whole persisted document: a JSON array of record objects.
pub open spec fn ser_doc(rs: Seq<CookieRecSpec>) -> Seq<char> {
    if rs.len() == 0 {
        seq!['[', ']']
    } else {
        seq!['['] + ser_records(rs) + seq![']']
    }
}

pub open spec fn parse_expiry(s: Seq<char>) -> Option<(Option<u64>, Seq<char>)> {
    match expect(s, lit_null()) {
        Option::Some(r) => Option::Some((Option::<u64>::None, r)),
        Option::None => match expect(s, seq!['"']) {
            Option::Some(r1) => match scan_digits(r1, 20, 0) {
                Option::Some(p) => match expect(p.1, seq!['"']) {
                    Option::Some(r3) => if p.0 <= u64::MAX {
                        Option::Some((Option::Some(p.0 as u64), r3))
                    } else {
                        Option::None
                    },
                    Option::None => Option::None,
                },
                Option::None => Option::None,
            },
            Option::None => Option::None,
        },
    }
}

pub open spec fn parse_bool(s: Seq<char>) -> Option<(bool, Seq<char>)> {
    match expect(s, lit_true()) {
        Option::Some(r) => Option::Some((true, r)),
        Option::None => match expect(s, lit_false()) {
            Option::Some(r) => Option::Some((false, r)),
            Option::None => Option::None,
        },
    }
}

pub open spec fn parse_same(s: Seq<char>) -> Option<(SameSite, Seq<char>)> {
    match expect(s, kw_unset()) {
        Option::Some(r) => Option::Some((SameSite::Unset, r)),
        Option::None => match expect(s, kw_none()) {
            Option::Some(r) => Option::Some((SameSite::CrossSite, r)),
            Option::None => match expect(s, kw_lax()) {
                Option::Some(r) => Option::Some((SameSite::Lax, r)),
                Option::None => match expect(s, kw_strict()) {
                    Option::Some(r) => Option::Some((SameSite::Strict, r)),
                    Option::None => Option::None,
                },
            },
        },
    }
}

/// One record object off the front of `s`.
pub open spec fn parse_rec(s: Seq<char>) -> Option<(CookieRecSpec, Seq<char>)> {
    match expect(s, h_domain()) {
        Option::Some(s1) => match scan_text(s1) {
            Option::Some((domain, s2)) => match expect(s2, h_path()) {
                Option::Some(s3) => match scan_text(s3) {
                    Option::Some((path, s4)) => match expect(s4, h_name()) {
                        Option::Some(s5) => match scan_text(s5) {
                            Option::Some((name, s6)) => match expect(s6, h_value()) {
                                Option::Some(s7) => match scan_text(s7) {
                                    Option::Some((value, s8)) => match expect(s8, h_expiry()) {
                                        Option::Some(s9) => match parse_expiry(s9) {
                                            Option::Some((expiry, s10)) => match expect(
                                                s10,
                                                h_secure(),
                                            ) {
                                                Option::Some(s11) => match parse_bool(s11) {
                                                    Option::Some((secure, s12)) => match expect(
                                                        s12,
                                                        h_http(),
                                                    ) {
                                                        Option::Some(s13) => match parse_bool(
                                                            s13,
                                                        ) {
                                                            Option::Some(
                                                                (http_only, s14),
                                                            ) => match expect(s14, h_same()) {
                                                                Option::Some(s15) => match parse_same(
                                                                    s15,
                                                                ) {
                                                                    Option::Some(
                                                                        (same_site, s16),
                                                                    ) => match expect(
                                                                        s16,
                                                                        lit_end(),
                                                                    ) {
                                                                        Option::Some(
                                                                            s17,
                                                                        ) => Option::Some(
                                                                            (
                                                                                CookieRecSpec {
                                                                                    domain,
                                                                                    path,
                                                                                    name,
                                                                                    value,
                                                                                    expiry,
                                                                                    secure,
                                                                                    http_only,
                                                                                    same_site,
                                                                                },
                                                                                s17,
                                                                            ),
                                                                        ),
                                                                        Option::None => Option::None,
                                                                    },
                                                                    Option::None => Option::None,
                                                                },
                                                                Option::None => Option::None,
                                                            },
                                                            Option::None => Option::None,
                                                        },
                                                        Option::None => Option::None,
                                                    },
                                                    Option::None => Option::None,
                                                },
                                                Option::None => Option::None,
                                            },
                                            Option::None => Option::None,
                                        },
                                        Option::None => Option::None,
                                    },
                                    Option::None => Option::None,
                                },
                                Option::None => Option::None,
                            },
                            Option::None => Option::None,
                        },
                        Option::None => Option::None,
                    },
                    Option::None => Option::None,
                },
                Option::None => Option::None,
            },
            Option::None => Option::None,
        },
        Option::None => Option::None,
    }
}

/// One or more comma-separated records, terminated by `]` (consumed).
pub open spec fn parse_records(s: Seq<char>) -> Option<(Seq<CookieRecSpec>, Seq<char>)>
    decreases s.len(),
{
    match parse_rec(s) {
        Option::Some((r, rest)) => {
            if rest.len() == 0 {
                Option::None
            } else if rest[0] == ']' {
                Option::Some((seq![r], rest.skip(1)))
            } else if rest[0] == ',' && rest.len() < s.len() {
                match parse_records(rest.skip(1)) {
                    Option::Some((rs, rr)) => Option::Some((seq![r] + rs, rr)),
                    Option::None => Option::None,
                }
            } else {
                Option::None
            }
        },
        Option::None => Option::None,
    }
}

/// The whole document, strictly: one JSON array, nothing before or after.
pub open spec fn parse_doc(s: Seq<char>) -> Option<Seq<CookieRecSpec>> {
    if s.len() == 2 && s[0] == '[' && s[1] == ']' {
        Option::Some(Seq::empty())
    } else if s.len() > 0 && s[0] == '[' {
        match parse_records(s.skip(1)) {
            Option::Some((rs, rest)) => if rest.len() == 0 {
                Option::Some(rs)
            } else {
                Option::None
            },
            Option::None => Option::None,
        }
    } else {
        Option::None
    }
}

/// A 64-bit value is untouched by reduction modulo the codec's width.
pub proof fn lemma_u64_fits(n: u64)
    ensures
        (n as nat) % pow10(20) == n as nat,
{
    lemma_pow10_values();
    vstd::arithmetic::div_mod::lemma_small_mod(n as nat, pow10(20));
}

/// Parsing a serialized expiry yields it back, whatever follows.
pub proof fn lemma_parse_expiry_rt(e: Option<u64>, rest: Seq<char>)
    ensures
        parse_expiry(ser_expiry(e) + rest) == Some((e, rest)),
{
    match e {
        Option::None => {
            lemma_expect_prefix(lit_null(), rest);
        },
        Option::Some(n) => {
            let digits = fixed_digits(n as nat, 20);
            let x = digits + (seq!['"'] + rest);
            let s = ser_expiry(e) + rest;
            assert(s =~= seq!['"'] + x);
            assert(s.len() > 0 && s[0] == '"');
            lemma_expect_mismatch(s, lit_null(), 0);
            lemma_expect_prefix(seq!['"'], x);
            lemma_scan_digits_rt(n as nat, 20, 0, seq!['"'] + rest);
            lemma_u64_fits(n);
            assert(0 * pow10(20) + (n as nat) % pow10(20) == n as nat) by (nonlinear_arith)
                requires
                    (n as nat) % pow10(20) == n as nat,
            ;
            lemma_expect_prefix(seq!['"'], rest);
        },
    }
}

/// Parsing a serialized boolean yields it back.
pub proof fn lemma_parse_bool_rt(b: bool, rest: Seq<char>)
    ensures
        parse_bool(ser_bool(b) + rest) == Some((b, rest)),
{
    if b {
        lemma_expect_prefix(lit_true(), rest);
    } else {
        let s = ser_bool(b) + rest;
        assert(s[0] == 'f');
        lemma_expect_mismatch(s, lit_true(), 0);
        lemma_expect_prefix(lit_false(), rest);
    }
}

/// Parsing a serialized same-site keyword yields it back.
pub proof fn lemma_parse_same_rt(ss: SameSite, rest: Seq<char>)
    ensures
        parse_same(ser_same(ss) + rest) == Some((ss, rest)),
{
    let s = ser_same(ss) + rest;
    match ss {
        SameSite::Unset => {
            lemma_expect_prefix(kw_unset(), rest);
        },
        SameSite::CrossSite => {
            assert(s[0] == 'n');
            lemma_expect_mismatch(s, kw_unset(), 0);
            lemma_expect_prefix(kw_none(), rest);
        },
        SameSite::Lax => {
            assert(s[0] == 'l');
            lemma_expect_mismatch(s, kw_unset(), 0);
            lemma_expect_mismatch(s, kw_none(), 0);
            lemma_expect_prefix(kw_lax(), rest);
        },
        SameSite::Strict => {
            assert(s[0] == 's');
            lemma_expect_mismatch(s, kw_unset(), 0);
            lemma_expect_mismatch(s, kw_none(), 0);
            lemma_expect_mismatch(s, kw_lax(), 0);
            lemma_expect_prefix(kw_strict(), rest);
        },
    }
}

/// Parsing a serialized record yields it back, whatever follows.
#[verifier::rlimit(100)]
pub proof fn lemma_parse_rec_rt(r: CookieRecSpec, rest: Seq<char>)
    requires
        rec_spec_wf(r),
    ensures
        parse_rec(ser_rec(r) + rest) == Some((r, rest)),
{
    let a1 = h_domain() + r.domain;
    let a2 = a1 + h_path();
    let a3 = a2 + r.path;
    let a4 = a3 + h_name();
    let a5 = a4 + r.name;
    let a6 = a5 + h_value();
    let a7 = a6 + r.value;
    let a8 = a7 + h_expiry();
    let a9 = a8 + ser_expiry(r.expiry);
    let a10 = a9 + h_secure();
    let a11 = a10 + ser_bool(r.secure);
    let a12 = a11 + h_http();
    let a13 = a12 + ser_bool(r.http_only);
    let a14 = a13 + h_same();
    let a15 = a14 + ser_same(r.same_site);
    let s = ser_rec(r) + rest;
    assert(s == (a15 + lit_end()) + rest);
    let r16 = lit_end() + rest;
    vstd::seq_lib::lemma_concat_associative(a15, lit_end(), rest);
    let r15 = ser_same(r.same_site) + r16;
    vstd::seq_lib::lemma_concat_associative(a14, ser_same(r.same_site), r16);
    let r14 = h_same() + r15;
    vstd::seq_lib::lemma_concat_associative(a13, h_same(), r15);
    let r13 = ser_bool(r.http_only) + r14;
    vstd::seq_lib::lemma_concat_associative(a12, ser_bool(r.http_only), r14);
    let r12 = h_http() + r13;
    vstd::seq_lib::lemma_concat_associative(a11, h_http(), r13);
    let r11 = ser_bool(r.secure) + r12;
    vstd::seq_lib::lemma_concat_associative(a10, ser_bool(r.secure), r12);
    let r10 = h_secure() + r11;
    vstd::seq_lib::lemma_concat_associative(a9, h_secure(), r11);
    let r9 = ser_expiry(r.expiry) + r10;
    vstd::seq_lib::lemma_concat_associative(a8, ser_expiry(r.expiry), r10);
    let r8 = h_expiry() + r9;
    vstd::seq_lib::lemma_concat_associative(a7, h_expiry(), r9);
    let r7 = r.value + r8;
    vstd::seq_lib::lemma_concat_associative(a6, r.value, r8);
    let r6 = h_value() + r7;
    vstd::seq_lib::lemma_concat_associative(a5, h_value(), r7);
    let r5 = r.name + r6;
    vstd::seq_lib::lemma_concat_associative(a4, r.name, r6);
    let r4 = h_name() + r5;
    vstd::seq_lib::lemma_concat_associative(a3, h_name(), r5);
    let r3 = r.path + r4;
    vstd::seq_lib::lemma_concat_associative(a2, r.path, r4);
    let r2 = h_path() + r3;
    vstd::seq_lib::lemma_concat_associative(a1, h_path(), r3);
    let r1 = r.domain + r2;
    vstd::seq_lib::lemma_concat_associative(h_domain(), r.domain, r2);
    assert(s == h_domain() + r1);
    lemma_expect_prefix(h_domain(), r1);
    assert(r2[0] == '"');
    lemma_scan_text_rt(r.domain, r2);
    lemma_expect_prefix(h_path(), r3);
    assert(r4[0] == '"');
    lemma_scan_text_rt(r.path, r4);
    lemma_expect_prefix(h_name(), r5);
    assert(r6[0] == '"');
    lemma_scan_text_rt(r.name, r6);
    lemma_expect_prefix(h_value(), r7);
    assert(r8[0] == '"');
    lemma_scan_text_rt(r.value, r8);
    lemma_expect_prefix(h_expiry(), r9);
    lemma_parse_expiry_rt(r.expiry, r10);
    lemma_expect_prefix(h_secure(), r11);
    lemma_parse_bool_rt(r.secure, r12);
    lemma_expect_prefix(h_http(), r13);
    lemma_parse_bool_rt(r.http_only, r14);
    lemma_expect_prefix(h_same(), r15);
    lemma_parse_same_rt(r.same_site, r16);
    lemma_expect_prefix(lit_end(), rest);
}

/// Parsing a serialized record list (with its closing bracket) yields the
/// records back, whatever follows the bracket.
#[verifier::rlimit(100)]
pub proof fn lemma_parse_records_rt(rs: Seq<CookieRecSpec>, rest: Seq<char>)
    requires
        rs.len() > 0,
        forall|i: int| 0 <= i < rs.len() ==> rec_spec_wf(#[trigger] rs[i]),
    ensures
        parse_records(ser_records(rs) + seq![']'] + rest) == Some((rs, rest)),
    decreases rs.len(),
{
    let s = ser_records(rs) + seq![']'] + rest;
    assert(ser_rec(rs[0]).len() >= 11);
    if rs.len() == 1 {
        let r1 = seq![']'] + rest;
        assert(s =~= ser_rec(rs[0]) + r1);
        lemma_parse_rec_rt(rs[0], r1);
        assert(r1[0] == ']');
        assert(r1.skip(1) =~= rest);
        assert(seq![rs[0]] =~= rs);
    } else {
        let tail = rs.drop_first();
        let r1 = seq![','] + (ser_records(tail) + seq![']'] + rest);
        assert(s =~= ser_rec(rs[0]) + r1);
        lemma_parse_rec_rt(rs[0], r1);
        assert(r1[0] == ',');
        assert(r1[0] != ']');
        assert(r1.len() < s.len());
        assert(forall|i: int| 0 <= i < tail.len() ==> rec_spec_wf(#[trigger] tail[i])) by {
            assert(forall|i: int| 0 <= i < tail.len() ==> tail[i] == rs[i + 1]);
        }
        lemma_parse_records_rt(tail, rest);
        assert(r1.skip(1) =~= ser_records(tail) + seq![']'] + rest);
        assert(seq![rs[0]] + tail =~= rs);
    }
}

/// The serialized form of a record is never empty and opens its object.
#[verifier::rlimit(100)]
pub proof fn lemma_ser_rec_first(r: CookieRecSpec)
    ensures
        ser_rec(r).len() >= 11,
        ser_rec(r)[0] == '{',
{
}

/// Round trip: parsing a serialized jar document yields exactly the records
/// that were saved.
#[verifier::rlimit(100)]
pub proof fn lemma_parse_doc_rt(rs: Seq<CookieRecSpec>)
    requires
        forall|i: int| 0 <= i < rs.len() ==> rec_spec_wf(#[trigger] rs[i]),
    ensures
        parse_doc(ser_doc(rs)) == Some(rs),
{
    if rs.len() == 0 {
        assert(ser_doc(rs) =~= seq!['[', ']']);
        assert(rs =~= Seq::<CookieRecSpec>::empty());
    } else {
        let s = ser_doc(rs);
        lemma_ser_rec_first(rs[0]);
        assert(ser_records(rs)[0] == '{');
        assert(ser_records(rs).len() >= 11);
        let body = ser_records(rs) + seq![']'];
        vstd::seq_lib::lemma_concat_associative(seq!['['], ser_records(rs), seq![']']);
        assert(s == seq!['['] + body);
        assert(s[0] == '[');
        assert(s[1] == body[0]);
        assert(!(s.len() == 2 && s[1] == ']'));
        lemma_parse_records_rt(rs, Seq::empty());
        assert(s.skip(1) =~= body);
        assert(body =~= ser_records(rs) + seq![']'] + Seq::<char>::empty());
    }
}

/// Builds the executable form of `h_domain`.
fn h_domain_vec() -> (r: Vec<char>)
    ensures
        r@ == h_domain(),
{
    let mut v: Vec<char> = Vec::new();
    v.push('{');
    v.push('\"');
    v.push('d');
    v.push('o');
    v.push('m');
    v.push('a');
    v.push('i');
    v.push('n');
    v.push('\"');
    v.push(':');
    v.push('\"');
    assert(v@ =~= h_domain());
    v
}

/// Builds the executable form of `h_path`.
fn h_path_vec() -> (r: Vec<char>)
    ensures
        r@ == h_path(),
{
    let mut v: Vec<char> = Vec::new();
    v.push('\"');
    v.push(',');
    v.push('\"');
    v.push('p');
    v.push('a');
    v.push('t');
    v.push('h');
    v.push('\"');
    v.push(':');
    v.push('\"');
    assert(v@ =~= h_path());
    v
}

/// Builds the executable form of `h_name`.
fn h_name_vec() -> (r: Vec<char>)
    ensures
        r@ == h_name(),
{
    let mut v: Vec<char> = Vec::new();
    v.push('\"');
    v.push(',');
    v.push('\"');
    v.push('n');
    v.push('a');
    v.push('m');
    v.push('e');
    v.push('\"');
    v.push(':');
    v.push('\"');
    assert(v@ =~= h_name());
    v
}

/// Builds the executable form of `h_value`.
fn h_value_vec() -> (r: Vec<char>)
    ensures
        r@ == h_value(),
{
    let mut v: Vec<char> = Vec::new();
    v.push('\"');
    v.push(',');
    v.push('\"');
    v.push('v');
    v.push('a');
    v.push('l');
    v.push('u');
    v.push('e');
    v.push('\"');
    v.push(':');
    v.push('\"');
    assert(v@ =~= h_value());
    v
}

/// Builds the executable form of `h_expiry`.
fn h_expiry_vec() -> (r: Vec<char>)
    ensures
        r@ == h_expiry(),
{
    let mut v: Vec<char> = Vec::new();
    v.push('\"');
    v.push(',');
    v.push('\"');
    v.push('e');
    v.push('x');
    v.push('p');
    v.push('i');
    v.push('r');
    v.push('y');
    v.push('\"');
    v.push(':');
    assert(v@ =~= h_expiry());
    v
}

/// Builds the executable form of `h_secure`.
fn h_secure_vec() -> (r: Vec<char>)
    ensures
        r@ == h_secure(),
{
    let mut v: Vec<char> = Vec::new();
    v.push(',');
    v.push('\"');
    v.push('s');
    v.push('e');
    v.push('c');
    v.push('u');
    v.push('r');
    v.push('e');
    v.push('\"');
    v.push(':');
    assert(v@ =~= h_secure());
    v
}

/// Builds the executable form of `h_http`.
fn h_http_vec() -> (r: Vec<char>)
    ensures
        r@ == h_http(),
{
    let mut v: Vec<char> = Vec::new();
    v.push(',');
    v.push('\"');
    v.push('h');
    v.push('t');
    v.push('t');
    v.push('p');
    v.push('_');
    v.push('o');
    v.push('n');
    v.push('l');
    v.push('y');
    v.push('\"');
    v.push(':');
    assert(v@ =~= h_http());
    v
}

/// Builds the executable form of `h_same`.
fn h_same_vec() -> (r: Vec<char>)
    ensures
        r@ == h_same(),
{
    let mut v: Vec<char> = Vec::new();
    v.push(',');
    v.push('\"');
    v.push('s');
    v.push('a');
    v.push('m');
    v.push('e');
    v.push('_');
    v.push('s');
    v.push('i');
    v.push('t');
    v.push('e');
    v.push('\"');
    v.push(':');
    v.push('\"');
    assert(v@ =~= h_same());
    v
}

/// Builds the executable form of `lit_end`.
fn lit_end_vec() -> (r: Vec<char>)
    ensures
        r@ == lit_end(),
{
    let mut v: Vec<char> = Vec::new();
    v.push('\"');
    v.push('}');
    assert(v@ =~= lit_end());
    v
}

/// Builds the executable form of `lit_true`.
fn lit_true_vec() -> (r: Vec<char>)
    ensures
        r@ == lit_true(),
{
    let mut v: Vec<char> = Vec::new();
    v.push('t');
    v.push('r');
    v.push('u');
    v.push('e');
    assert(v@ =~= lit_true());
    v
}

/// Builds the executable form of `lit_false`.
fn lit_false_vec() -> (r: Vec<char>)
    ensures
        r@ == lit_false(),
{
    let mut v: Vec<char> = Vec::new();
    v.push('f');
    v.push('a');
    v.push('l');
    v.push('s');
    v.push('e');
    assert(v@ =~= lit_false());
    v
}

/// Builds the executable form of `lit_null`.
fn lit_null_vec() -> (r: Vec<char>)
    ensures
        r@ == lit_null(),
{
    let mut v: Vec<char> = Vec::new();
    v.push('n');
    v.push('u');
    v.push('l');
    v.push('l');
    assert(v@ =~= lit_null());
    v
}

/// Builds the executable form of `kw_unset`.
fn kw_unset_vec() -> (r: Vec<char>)
    ensures
        r@ == kw_unset(),
{
    let mut v: Vec<char> = Vec::new();
    v.push('u');
    v.push('n');
    v.push('s');
    v.push('e');
    v.push('t');
    assert(v@ =~= kw_unset());
    v
}

/// Builds the executable form of `kw_none`.
fn kw_none_vec() -> (r: Vec<char>)
    ensures
        r@ == kw_none(),
{
    let mut v: Vec<char> = Vec::new();
    v.push('n');
    v.push('o');
    v.push('n');
    v.push('e');
    assert(v@ =~= kw_none());
    v
}

/// Builds the executable form of `kw_lax`.
fn kw_lax_vec() -> (r: Vec<char>)
    ensures
        r@ == kw_lax(),
{
    let mut v: Vec<char> = Vec::new();
    v.push('l');
    v.push('a');
    v.push('x');
    assert(v@ =~= kw_lax());
    v
}

/// Builds the executable form of `kw_strict`.
fn kw_strict_vec() -> (r: Vec<char>)
    ensures
        r@ == kw_strict(),
{
    let mut v: Vec<char> = Vec::new();
    v.push('s');
    v.push('t');
    v.push('r');
    v.push('i');
    v.push('c');
    v.push('t');
    assert(v@ =~= kw_strict());
    v
}


/// Appends `lit` to `out`.
fn push_all(out: &mut Vec<char>, lit: &Vec<char>)
    ensures
        final(out)@ == old(out)@ + lit@,
{
    let ghost o = out@;
    let n: usize = lit.len();
    let mut k: usize = 0;
    while k < n
        invariant
            n == lit@.len(),
            k <= n,
            out@ =~= o + lit@.subrange(0, k as int),
        decreases n - k,
    {
        out.push(lit[k]);
        assert(out@ =~= o + lit@.subrange(0, k + 1));
        k += 1;
    }
    assert(o + lit@.subrange(0, n as int) =~= o + lit@);
}

/// Consumes `lit` at position `i` of `v`, returning the position after it.
fn eat_lit(v: &Vec<char>, i: usize, lit: &Vec<char>) -> (r: Option<usize>)
    requires
        i <= v@.len(),
    ensures
        match r {
            Some(j) => i <= j <= v@.len() && j - i == lit@.len() && expect(
                v@.skip(i as int),
                lit@,
            ) == Some(v@.skip(j as int)),
            None => expect(v@.skip(i as int), lit@) is None,
        },
{
    let n: usize = v.len();
    let m: usize = lit.len();
    if n - i < m {
        assert(v@.skip(i as int).len() < lit@.len());
        return None;
    }
    let mut k: usize = 0;
    while k < m
        invariant
            i <= n,
            m <= n - i,
            n == v@.len(),
            m == lit@.len(),
            k <= m,
            forall|t: int| 0 <= t < k ==> v@[i + t] == lit@[t],
        decreases m - k,
    {
        if v[i + k] != lit[k] {
            proof {
                assert(v@.skip(i as int)[k as int] == v@[i + k]);
                lemma_expect_mismatch(v@.skip(i as int), lit@, k as int);
            }
            return None;
        }
        k += 1;
    }
    proof {
        assert(v@.skip(i as int).subrange(0, m as int) =~= lit@);
        assert(v@.skip(i as int).skip(m as int) =~= v@.skip(i + m));
    }
    Some(i + m)
}

/// Reads JSON-safe string content at `i`, stopping at the closing quote
/// (which is not consumed).
fn scan_text_exec(v: &Vec<char>, i: usize) -> (r: Option<(Vec<char>, usize)>)
    requires
        i <= v@.len(),
    ensures
        match r {
            Some(p) => i <= p.1 <= v@.len() && text_ok(p.0@) && scan_text(v@.skip(i as int))
                == Some((p.0@, v@.skip(p.1 as int))),
            None => scan_text(v@.skip(i as int)) is None,
        },
{
    let n: usize = v.len();
    let mut out: Vec<char> = Vec::new();
    let mut cur: usize = i;
    while cur < n
        invariant
            i <= cur <= n,
            n == v@.len(),
            text_ok(out@),
            (match scan_text(v@.skip(cur as int)) {
                Some(p) => scan_text(v@.skip(i as int)) == Some((out@ + p.0, p.1)),
                None => scan_text(v@.skip(i as int)) is None,
            }),
        decreases n - cur,
    {
        let c = v[cur];
        let ghost sp = v@.skip(cur as int);
        assert(sp[0] == c);
        if c == '"' {
            proof {
                assert(scan_text(sp) == Some((Seq::<char>::empty(), sp)));
                assert(out@ + Seq::<char>::empty() =~= out@);
            }
            return Some((out, cur));
        }
        if c < ' ' || c > '~' || c == '\\' {
            proof {
                assert(!text_char_ok(sp[0]));
                assert(scan_text(sp) is None);
            }
            return None;
        }
        assert(text_char_ok(c));
        let ghost out0 = out@;
        out.push(c);
        cur += 1;
        proof {
            let sc = v@.skip(cur as int);
            assert(sp.skip(1) =~= sc);
            match scan_text(sc) {
                Some(p) => {
                    assert(scan_text(sp) == Some((seq![c] + p.0, p.1)));
                    assert(out0 + (seq![c] + p.0) =~= out@ + p.0);
                },
                None => {
                    assert(scan_text(sp) is None);
                },
            }
            assert(forall|t: int| 0 <= t < out@.len() ==> text_char_ok(out@[t]));
        }
    }
    proof {
        assert(v@.skip(cur as int).len() == 0);
        assert(scan_text(v@.skip(cur as int)) is None);
    }
    None
}

/// The character for one decimal digit.
fn digit_to_char(d: u64) -> (c: char)
    requires
        d < 10,
    ensures
        c == digit_char(d as int),
{
    match d {
        0 => '0',
        1 => '1',
        2 => '2',
        3 => '3',
        4 => '4',
        5 => '5',
        6 => '6',
        7 => '7',
        8 => '8',
        _ => '9',
    }
}

/// The value of one decimal digit character.
fn digit_of(c: char) -> (r: Option<u64>)
    ensures
        match r {
            Some(d) => is_digit(c) && d < 10 && d as int == digit_val(c),
            None => !is_digit(c),
        },
{
    match c {
        '0' => Some(0),
        '1' => Some(1),
        '2' => Some(2),
        '3' => Some(3),
        '4' => Some(4),
        '5' => Some(5),
        '6' => Some(6),
        '7' => Some(7),
        '8' => Some(8),
        '9' => Some(9),
        _ => None,
    }
}

/// Appends `n` as exactly twenty decimal digits.
fn write_u64_fixed(out: &mut Vec<char>, n: u64)
    ensures
        final(out)@ == old(out)@ + fixed_digits(n as nat, 20),
{
    proof {
        lemma_pow10_values();
    }
    let ghost o = out@;
    let mut p: u64 = 10_000_000_000_000_000_000;
    let mut t: usize = 0;
    while t < 20
        invariant
            t <= 20,
            t < 20 ==> p as nat == pow10((19 - t) as nat),
            o + fixed_digits(n as nat, 20) =~= out@ + fixed_digits(n as nat, (20 - t) as nat),
        decreases 20 - t,
    {
        proof {
            lemma_pow10_pos((19 - t) as nat);
        }
        let d: u64 = (n / p) % 10;
        assert(d as int == ((n as nat / pow10((19 - t) as nat)) % 10) as int);
        let c = digit_to_char(d);
        let ghost k = (20 - t) as nat;
        assert(fixed_digits(n as nat, k) == seq![
            digit_char(((n as nat / pow10((k - 1) as nat)) % 10) as int),
        ] + fixed_digits(n as nat, (k - 1) as nat));
        assert(c == fixed_digits(n as nat, k)[0]);
        let ghost out0 = out@;
        out.push(c);
        proof {
            assert(out@ =~= out0 + seq![c]);
            assert(out0 + fixed_digits(n as nat, k) =~= out@ + fixed_digits(
                n as nat,
                (k - 1) as nat,
            ));
        }
        if t < 19 {
            assert(pow10((19 - t) as nat) == 10 * pow10((18 - t) as nat));
            p = p / 10;
            assert(p as nat == pow10((18 - t) as nat));
        }
        t += 1;
    }
    assert(fixed_digits(n as nat, 0) == Seq::<char>::empty());
    assert(out@ + fixed_digits(n as nat, 0) =~= out@);
    assert(o + fixed_digits(n as nat, 20) =~= out@);
}

/// Reads exactly twenty decimal digits at `i`, as their folded value.
fn read_u64_fixed(v: &Vec<char>, i: usize) -> (r: Option<(u128, usize)>)
    requires
        i <= v@.len(),
    ensures
        match r {
            Some(p) => i <= p.1 <= v@.len() && p.1 - i == 20 && scan_digits(
                v@.skip(i as int),
                20,
                0,
            ) == Some((p.0 as nat, v@.skip(p.1 as int))),
            None => scan_digits(v@.skip(i as int), 20, 0) is None,
        },
{
    proof {
        lemma_pow10_values();
    }
    let n: usize = v.len();
    let mut acc: u128 = 0;
    let mut cur: usize = i;
    let mut t: usize = 0;
    while t < 20
        invariant
            i <= cur <= n,
            n == v@.len(),
            cur - i == t,
            t <= 20,
            (acc as nat) < pow10(t as nat),
            pow10(20) == 100_000_000_000_000_000_000,
            (match scan_digits(v@.skip(cur as int), (20 - t) as nat, acc as nat) {
                Some(p) => scan_digits(v@.skip(i as int), 20, 0) == Some(p),
                None => scan_digits(v@.skip(i as int), 20, 0) is None,
            }),
        decreases 20 - t,
    {
        proof {
            lemma_pow10_pos(t as nat);
            lemma_pow10_increases(t as nat, 19);
        }
        if cur >= n {
            proof {
                assert(v@.skip(cur as int).len() == 0);
                assert(scan_digits(v@.skip(cur as int), (20 - t) as nat, acc as nat) is None);
            }
            return None;
        }
        let c = v[cur];
        let ghost sp = v@.skip(cur as int);
        assert(sp[0] == c);
        match digit_of(c) {
            Some(d) => {
                proof {
                    assert(pow10(19) == 10_000_000_000_000_000_000);
                    assert((acc as nat) < pow10(19));
                    assert((acc as nat) * 10 + (d as nat) < pow10(t as nat) * 10) by (nonlinear_arith)
                        requires
                            (acc as nat) < pow10(t as nat),
                            d < 10,
                    ;
                    assert(pow10((t + 1) as nat) == 10 * pow10(t as nat));
                    assert((acc as nat) * 10 + (d as nat) < 100_000_000_000_000_000_000) by (nonlinear_arith)
                        requires
                            (acc as nat) < 10_000_000_000_000_000_000,
                            d < 10,
                    ;
                    assert(sp.skip(1) =~= v@.skip(cur as int + 1));
                    assert(scan_digits(sp, (20 - t) as nat, acc as nat) == scan_digits(
                        sp.skip(1),
                        (20 - t - 1) as nat,
                        (acc * 10 + digit_val(sp[0])) as nat,
                    ));
                }
                acc = acc * 10 + (d as u128);
                cur += 1;
                t += 1;
            },
            None => {
                proof {
                    assert(!is_digit(sp[0]));
                    assert(scan_digits(sp, (20 - t) as nat, acc as nat) is None);
                }
                return None;
            },
        }
    }
    proof {
        assert(scan_digits(v@.skip(cur as int), 0, acc as nat) == Some(
            (acc as nat, v@.skip(cur as int)),
        ));
    }
    Some((acc, cur))
}

/// Powers of ten grow with the exponent.
pub proof fn lemma_pow10_increases(a: nat, b: nat)
    requires
        a <= b,
    ensures
        pow10(a) <= pow10(b),
    decreases b,
{
    if a < b {
        lemma_pow10_increases(a, (b - 1) as nat);
        lemma_pow10_pos((b - 1) as nat);
    }
}


/// The mathematical content of an executable record.
pub open spec fn rec_view(r: CookieRecord) -> CookieRecSpec {
    CookieRecSpec {
        domain: r.domain@,
        path: r.path@,
        name: r.name@,
        value: r.value@,
        expiry: r.expiry,
        secure: r.secure,
        http_only: r.http_only,
        same_site: r.same_site,
    }
}

/// The mathematical content of a record sequence.
pub open spec fn recs_views(s: Seq<CookieRecord>) -> Seq<CookieRecSpec> {
    s.map_values(|r: CookieRecord| rec_view(r))
}

/// No two abstract records share a (domain, path, name) key.
pub open spec fn views_unique(rs: Seq<CookieRecSpec>) -> bool {
    forall|i: int, j: int|
        0 <= i < j < rs.len() ==> (#[trigger] rs[i].domain, rs[i].path, rs[i].name) != (
            #[trigger] rs[j].domain,
            rs[j].path,
            rs[j].name,
        )
}

/// Appends one serialized record object.
#[verifier::rlimit(100)]
fn write_rec(out: &mut Vec<char>, rec: &CookieRecord)
    ensures
        final(out)@ == old(out)@ + ser_rec(rec_view(*rec)),
{
    let ghost o = out@;
    let ghost p1 = h_domain();
    push_all(out, &h_domain_vec());
    assert(out@ == o + p1);
    let ghost p2 = p1 + rec.domain@;
    push_all(out, &rec.domain);
    proof {
        vstd::seq_lib::lemma_concat_associative(o, p1, rec.domain@);
    }
    let ghost p3 = p2 + h_path();
    push_all(out, &h_path_vec());
    proof {
        vstd::seq_lib::lemma_concat_associative(o, p2, h_path());
    }
    let ghost p4 = p3 + rec.path@;
    push_all(out, &rec.path);
    proof {
        vstd::seq_lib::lemma_concat_associative(o, p3, rec.path@);
    }
    let ghost p5 = p4 + h_name();
    push_all(out, &h_name_vec());
    proof {
        vstd::seq_lib::lemma_concat_associative(o, p4, h_name());
    }
    let ghost p6 = p5 + rec.name@;
    push_all(out, &rec.name);
    proof {
        vstd::seq_lib::lemma_concat_associative(o, p5, rec.name@);
    }
    let ghost p7 = p6 + h_value();
    push_all(out, &h_value_vec());
    proof {
        vstd::seq_lib::lemma_concat_associative(o, p6, h_value());
    }
    let ghost p8 = p7 + rec.value@;
    push_all(out, &rec.value);
    proof {
        vstd::seq_lib::lemma_concat_associative(o, p7, rec.value@);
    }
    let ghost p9 = p8 + h_expiry();
    push_all(out, &h_expiry_vec());
    proof {
        vstd::seq_lib::lemma_concat_associative(o, p8, h_expiry());
    }
    let ghost p10 = p9 + ser_expiry(rec.expiry);
    let ghost mid = out@;
    match rec.expiry {
        Option::Some(n) => {
            let mut q: Vec<char> = Vec::new();
            q.push('"');
            assert(q@ =~= seq!['"']);
            push_all(out, &q);
            write_u64_fixed(out, n);
            push_all(out, &q);
            proof {
                assert(out@ =~= mid + ser_expiry(rec.expiry));
            }
        },
        Option::None => {
            push_all(out, &lit_null_vec());
        },
    }
    proof {
        vstd::seq_lib::lemma_concat_associative(o, p9, ser_expiry(rec.expiry));
    }
    assert(out@ == o + p10);
    let ghost p11 = p10 + h_secure();
    push_all(out, &h_secure_vec());
    proof {
        vstd::seq_lib::lemma_concat_associative(o, p10, h_secure());
    }
    let ghost p12 = p11 + ser_bool(rec.secure);
    if rec.secure {
        push_all(out, &lit_true_vec());
    } else {
        push_all(out, &lit_false_vec());
    }
    proof {
        vstd::seq_lib::lemma_concat_associative(o, p11, ser_bool(rec.secure));
    }
    let ghost p13 = p12 + h_http();
    push_all(out, &h_http_vec());
    proof {
        vstd::seq_lib::lemma_concat_associative(o, p12, h_http());
    }
    let ghost p14 = p13 + ser_bool(rec.http_only);
    if rec.http_only {
        push_all(out, &lit_true_vec());
    } else {
        push_all(out, &lit_false_vec());
    }
    proof {
        vstd::seq_lib::lemma_concat_associative(o, p13, ser_bool(rec.http_only));
    }
    let ghost p15 = p14 + h_same();
    push_all(out, &h_same_vec());
    proof {
        vstd::seq_lib::lemma_concat_associative(o, p14, h_same());
    }
    let ghost p16 = p15 + ser_same(rec.same_site);
    match rec.same_site {
        SameSite::Unset => push_all(out, &kw_unset_vec()),
        SameSite::CrossSite => push_all(out, &kw_none_vec()),
        SameSite::Lax => push_all(out, &kw_lax_vec()),
        SameSite::Strict => push_all(out, &kw_strict_vec()),
    }
    proof {
        vstd::seq_lib::lemma_concat_associative(o, p15, ser_same(rec.same_site));
    }
    let ghost p17 = p16 + lit_end();
    push_all(out, &lit_end_vec());
    proof {
        vstd::seq_lib::lemma_concat_associative(o, p16, lit_end());
    }
    assert(out@ == o + p17);
    assert(p17 == ser_rec(rec_view(*rec)));
}

fn parse_expiry_exec(v: &Vec<char>, i: usize) -> (r: Option<(Option<u64>, usize)>)
    requires
        i <= v@.len(),
    ensures
        match r {
            Some(p) => i <= p.1 <= v@.len() && parse_expiry(v@.skip(i as int)) == Some(
                (p.0, v@.skip(p.1 as int)),
            ),
            None => parse_expiry(v@.skip(i as int)) is None,
        },
{
    match eat_lit(v, i, &lit_null_vec()) {
        Some(j) => Some((None, j)),
        None => {
            let mut q: Vec<char> = Vec::new();
            q.push('"');
            assert(q@ =~= seq!['"']);
            match eat_lit(v, i, &q) {
                None => None,
                Some(j1) => match read_u64_fixed(v, j1) {
                    None => None,
                    Some((x, j2)) => match eat_lit(v, j2, &q) {
                        None => None,
                        Some(j3) => {
                            if x <= 0xFFFF_FFFF_FFFF_FFFFu128 {
                                assert((x as nat) <= u64::MAX);
                                assert(((x as nat) as u64) as nat == x as nat);
                                Some((Some(x as u64), j3))
                            } else {
                                None
                            }
                        },
                    },
                },
            }
        },
    }
}

fn parse_bool_exec(v: &Vec<char>, i: usize) -> (r: Option<(bool, usize)>)
    requires
        i <= v@.len(),
    ensures
        match r {
            Some(p) => i <= p.1 <= v@.len() && parse_bool(v@.skip(i as int)) == Some(
                (p.0, v@.skip(p.1 as int)),
            ),
            None => parse_bool(v@.skip(i as int)) is None,
        },
{
    match eat_lit(v, i, &lit_true_vec()) {
        Some(j) => Some((true, j)),
        None => match eat_lit(v, i, &lit_false_vec()) {
            Some(j) => Some((false, j)),
            None => None,
        },
    }
}

fn parse_same_exec(v: &Vec<char>, i: usize) -> (r: Option<(SameSite, usize)>)
    requires
        i <= v@.len(),
    ensures
        match r {
            Some(p) => i <= p.1 <= v@.len() && parse_same(v@.skip(i as int)) == Some(
                (p.0, v@.skip(p.1 as int)),
            ),
            None => parse_same(v@.skip(i as int)) is None,
        },
{
    match eat_lit(v, i, &kw_unset_vec()) {
        Some(j) => Some((SameSite::Unset, j)),
        None => match eat_lit(v, i, &kw_none_vec()) {
            Some(j) => Some((SameSite::CrossSite, j)),
            None => match eat_lit(v, i, &kw_lax_vec()) {
                Some(j) => Some((SameSite::Lax, j)),
                None => match eat_lit(v, i, &kw_strict_vec()) {
                    Some(j) => Some((SameSite::Strict, j)),
                    None => None,
                },
            },
        },
    }
}

/// Parses one record object at `i`.
#[verifier::rlimit(100)]
fn parse_rec_exec(v: &Vec<char>, i: usize) -> (r: Option<(CookieRecord, usize)>)
    requires
        i <= v@.len(),
    ensures
        match r {
            Some(p) => i < p.1 <= v@.len() && crate::cookies::rec_wf(p.0) && parse_rec(
                v@.skip(i as int),
            ) == Some((rec_view(p.0), v@.skip(p.1 as int))),
            None => parse_rec(v@.skip(i as int)) is None,
        },
{
    let s1 = match eat_lit(v, i, &h_domain_vec()) {
        Some(j) => j,
        None => {
            return None;
        },
    };
    let (domain, s2) = match scan_text_exec(v, s1) {
        Some(p) => p,
        None => {
            return None;
        },
    };
    let s3 = match eat_lit(v, s2, &h_path_vec()) {
        Some(j) => j,
        None => {
            return None;
        },
    };
    let (path, s4) = match scan_text_exec(v, s3) {
        Some(p) => p,
        None => {
            return None;
        },
    };
    let s5 = match eat_lit(v, s4, &h_name_vec()) {
        Some(j) => j,
        None => {
            return None;
        },
    };
    let (name, s6) = match scan_text_exec(v, s5) {
        Some(p) => p,
        None => {
            return None;
        },
    };
    let s7 = match eat_lit(v, s6, &h_value_vec()) {
        Some(j) => j,
        None => {
            return None;
        },
    };
    let (value, s8) = match scan_text_exec(v, s7) {
        Some(p) => p,
        None => {
            return None;
        },
    };
    let s9 = match eat_lit(v, s8, &h_expiry_vec()) {
        Some(j) => j,
        None => {
            return None;
        },
    };
    let (expiry, s10) = match parse_expiry_exec(v, s9) {
        Some(p) => p,
        None => {
            return None;
        },
    };
    let s11 = match eat_lit(v, s10, &h_secure_vec()) {
        Some(j) => j,
        None => {
            return None;
        },
    };
    let (secure, s12) = match parse_bool_exec(v, s11) {
        Some(p) => p,
        None => {
            return None;
        },
    };
    let s13 = match eat_lit(v, s12, &h_http_vec()) {
        Some(j) => j,
        None => {
            return None;
        },
    };
    let (http_only, s14) = match parse_bool_exec(v, s13) {
        Some(p) => p,
        None => {
            return None;
        },
    };
    let s15 = match eat_lit(v, s14, &h_same_vec()) {
        Some(j) => j,
        None => {
            return None;
        },
    };
    let (same_site, s16) = match parse_same_exec(v, s15) {
        Some(p) => p,
        None => {
            return None;
        },
    };
    let s17 = match eat_lit(v, s16, &lit_end_vec()) {
        Some(j) => j,
        None => {
            return None;
        },
    };
    let rec = CookieRecord { domain, path, name, value, expiry, secure, http_only, same_site };
    Some((rec, s17))
}

/// Parses one or more comma-separated records, consuming the closing `]`.
#[verifier::rlimit(100)]
fn parse_records_exec(v: &Vec<char>, i: usize) -> (r: Option<(Vec<CookieRecord>, usize)>)
    requires
        i <= v@.len(),
    ensures
        match r {
            Some(p) => i < p.1 <= v@.len() && (forall|t: int|
                0 <= t < p.0@.len() ==> crate::cookies::rec_wf(#[trigger] p.0@[t]))
                && parse_records(v@.skip(i as int)) == Some(
                (recs_views(p.0@), v@.skip(p.1 as int)),
            ),
            None => parse_records(v@.skip(i as int)) is None,
        },
    decreases v@.len() - i,
{
    match parse_rec_exec(v, i) {
        None => None,
        Some((rec, j)) => {
            let n: usize = v.len();
            if j < n && v[j] == ']' {
                proof {
                    assert(v@.skip(j as int)[0] == ']');
                    assert(v@.skip(j as int).skip(1) =~= v@.skip(j + 1));
                }
                let mut recs: Vec<CookieRecord> = Vec::new();
                recs.push(rec);
                proof {
                    assert(recs_views(recs@) =~= seq![rec_view(rec)]);
                }
                Some((recs, j + 1))
            } else if j < n && v[j] == ',' {
                proof {
                    assert(v@.skip(j as int)[0] == ',');
                    assert(v@.skip(j as int).len() < v@.skip(i as int).len());
                    assert(v@.skip(j as int).skip(1) =~= v@.skip(j + 1));
                }
                match parse_records_exec(v, j + 1) {
                    None => None,
                    Some((recs2, j2)) => {
                        let mut recs2 = recs2;
                        recs2.insert(0, rec);
                        proof {
                            assert(recs_views(recs2@) =~= seq![rec_view(rec)] + recs_views(
                                recs2@.subrange(1, recs2@.len() as int),
                            ));
                        }
                        Some((recs2, j2))
                    },
                }
            } else {
                proof {
                    if j < n {
                        assert(v@.skip(j as int)[0] != ']' && v@.skip(j as int)[0] != ',');
                    } else {
                        assert(v@.skip(j as int).len() == 0);
                    }
                }
                None
            }
        },
    }
}

/// Serializes the jar as its persisted JSON document. What `save` writes:
/// the caller (outside the lock's critical section) hands these characters
/// to the host to be written to a temporary file and atomically renamed
/// over the target, so a crash mid-write can never leave a half-written
/// document where the next load would find it.
pub fn save_jar(jar: &CookieJar) -> (out: Vec<char>)
    requires
        jar.wf(),
    ensures
        out@ == ser_doc(recs_views(jar.recs())),
{
    let mut out: Vec<char> = Vec::new();
    out.push('[');
    let n: usize = jar.len();
    if n == 0 {
        out.push(']');
        assert(recs_views(jar.recs()) =~= Seq::<CookieRecSpec>::empty());
        assert(out@ =~= ser_doc(recs_views(jar.recs())));
        return out;
    }
    write_rec(&mut out, jar.record_at(0));
    proof {
        assert(recs_views(jar.recs().subrange(0, 1)) =~= seq![rec_view(jar.recs()[0])]);
        assert(out@ =~= seq!['['] + ser_records(recs_views(jar.recs().subrange(0, 1))));
    }
    let mut k: usize = 1;
    while k < n
        invariant
            jar.wf(),
            1 <= k <= n,
            n == jar.recs().len(),
            out@ =~= seq!['['] + ser_records(recs_views(jar.recs().subrange(0, k as int))),
        decreases n - k,
    {
        let mut comma: Vec<char> = Vec::new();
        comma.push(',');
        assert(comma@ =~= seq![',']);
        push_all(&mut out, &comma);
        write_rec(&mut out, jar.record_at(k));
        proof {
            let pre = recs_views(jar.recs().subrange(0, k as int));
            let post = recs_views(jar.recs().subrange(0, k + 1));
            assert(post =~= pre.push(rec_view(jar.recs()[k as int])));
            assert(pre.len() >= 1);
            lemma_ser_records_snoc(pre, rec_view(jar.recs()[k as int]));
            assert(out@ =~= seq!['['] + ser_records(post));
        }
        k += 1;
    }
    out.push(']');
    proof {
        assert(jar.recs().subrange(0, n as int) =~= jar.recs());
        assert(out@ =~= ser_doc(recs_views(jar.recs())));
    }
    out
}

/// Appending a record to a non-empty list appends a comma and its object.
pub proof fn lemma_ser_records_snoc(rs: Seq<CookieRecSpec>, r: CookieRecSpec)
    requires
        rs.len() >= 1,
    ensures
        ser_records(rs.push(r)) == ser_records(rs) + seq![','] + ser_rec(r),
    decreases rs.len(),
{
    let e = rs.push(r);
    assert(e[0] == rs[0]);
    if rs.len() == 1 {
        assert(e.drop_first() =~= seq![r]);
        assert(ser_records(seq![r]) == ser_rec(r));
    } else {
        assert(e.drop_first() =~= rs.drop_first().push(r));
        lemma_ser_records_snoc(rs.drop_first(), r);
        assert(ser_records(e) == ser_rec(rs[0]) + seq![','] + (ser_records(rs.drop_first())
            + seq![','] + ser_rec(r)));
        assert(ser_rec(rs[0]) + seq![','] + (ser_records(rs.drop_first()) + seq![','] + ser_rec(
            r,
        )) =~= (ser_rec(rs[0]) + seq![','] + ser_records(rs.drop_first())) + seq![','] + ser_rec(
            r,
        ));
    }
}

/// Decides whether the records carry pairwise distinct keys.
fn records_unique(recs: &Vec<CookieRecord>) -> (r: bool)
    ensures
        r == crate::cookies::unique_keys(recs@),
{
    let n: usize = recs.len();
    let mut a: usize = 0;
    while a < n
        invariant
            a <= n,
            n == recs@.len(),
            forall|x: int, y: int|
                0 <= x < y < n && x < a ==> #[trigger] crate::cookies::rec_key(recs@[x])
                    != #[trigger] crate::cookies::rec_key(recs@[y]),
        decreases n - a,
    {
        let mut b: usize = a + 1;
        while b < n
            invariant
                a < b || b == a + 1,
                a + 1 <= b <= n,
                a < n,
                n == recs@.len(),
                forall|y: int|
                    a < y < b ==> #[trigger] crate::cookies::rec_key(recs@[y])
                        != crate::cookies::rec_key(recs@[a as int]),
            decreases n - b,
        {
            let ra = &recs[a];
            let rb = &recs[b];
            if crate::text::chars_eq(&ra.domain, &rb.domain) && crate::text::chars_eq(
                &ra.path,
                &rb.path,
            ) && crate::text::chars_eq(&ra.name, &rb.name) {
                assert(crate::cookies::rec_key(recs@[a as int]) == crate::cookies::rec_key(
                    recs@[b as int],
                ));
                return false;
            }
            assert(crate::cookies::rec_key(recs@[b as int]) != crate::cookies::rec_key(
                recs@[a as int],
            ));
            b += 1;
        }
        a += 1;
    }
    true
}

/// Loads a jar from the characters of its persisted document. A missing
/// file never reaches this function — the embedding program loads the
/// empty jar for it; a file that exists but does not parse as a jar
/// document, or that repeats a (domain, path, name) key, is
/// `CorruptCookieStore` (the chosen policy: the caller surfaces the error
/// rather than silently discarding history).
pub fn load_jar(doc: &Vec<char>) -> (r: Result<CookieJar, HttpError>)
    ensures
        match r {
            Ok(jar) => jar.wf() && parse_doc(doc@) == Some(recs_views(jar.recs())),
            Err(e) => e == HttpError::CorruptCookieStore,
        },
        r is Ok <==> (parse_doc(doc@) matches Some(rs) && views_unique(rs)),
{
    let n: usize = doc.len();
    if n == 2 && doc[0] == '[' && doc[1] == ']' {
        let jar = CookieJar::new();
        proof {
            assert(parse_doc(doc@) == Some(Seq::<CookieRecSpec>::empty()));
            assert(recs_views(jar.recs()) =~= Seq::<CookieRecSpec>::empty());
        }
        return Ok(jar);
    }
    if n > 0 && doc[0] == '[' {
        assert(!(doc@.len() == 2 && doc@[0] == '[' && doc@[1] == ']'));
        match parse_records_exec(doc, 1) {
            Some((recs, j)) => {
                if j == n {
                    proof {
                        assert(doc@.skip(j as int).len() == 0);
                    }
                    if records_unique(&recs) {
                        proof {
                            assert forall|x: int, y: int|
                                0 <= x < y < recs_views(recs@).len() implies (
                            #[trigger] recs_views(recs@)[x].domain,
                            recs_views(recs@)[x].path,
                            recs_views(recs@)[x].name,
                            ) != (
                            #[trigger] recs_views(recs@)[y].domain,
                            recs_views(recs@)[y].path,
                            recs_views(recs@)[y].name,
                            ) by {
                                assert(crate::cookies::rec_key(recs@[x])
                                    != crate::cookies::rec_key(recs@[y]));
                            }
                        }
                        let jar = CookieJar::from_records(recs);
                        Ok(jar)
                    } else {
                        proof {
                            let i0 = choose|x: int, y: int|
                                0 <= x < y < recs@.len() && crate::cookies::rec_key(recs@[x])
                                    == crate::cookies::rec_key(recs@[y]);
                        }
                        assert(!views_unique(recs_views(recs@))) by {
                            let (x, y) = choose|x: int, y: int|
                                0 <= x < y < recs@.len() && #[trigger] crate::cookies::rec_key(
                                    recs@[x],
                                ) == #[trigger] crate::cookies::rec_key(recs@[y]);
                            assert((recs_views(recs@)[x].domain, recs_views(recs@)[x].path,
                            recs_views(recs@)[x].name) == (recs_views(recs@)[y].domain,
                            recs_views(recs@)[y].path, recs_views(recs@)[y].name));
                        }
                        Err(HttpError::CorruptCookieStore)
                    }
                } else {
                    proof {
                        assert(doc@.skip(j as int).len() > 0);
                    }
                    Err(HttpError::CorruptCookieStore)
                }
            },
            None => Err(HttpError::CorruptCookieStore),
        }
    } else {
        Err(HttpError::CorruptCookieStore)
    }
}

/// Round trip at the jar level: serializing a well-formed jar and parsing
/// the document back yields exactly the jar's records — the reloaded jar
/// carries identical (domain, path, name) to value-and-attribute bindings.
pub proof fn lemma_jar_round_trip(jar: CookieJar)
    requires
        jar.wf(),
    ensures
        parse_doc(ser_doc(recs_views(jar.recs()))) == Some(recs_views(jar.recs())),
        views_unique(recs_views(jar.recs())),
{
    let rs = recs_views(jar.recs());
    assert forall|i: int| 0 <= i < rs.len() implies rec_spec_wf(#[trigger] rs[i]) by {
        assert(crate::cookies::rec_wf(jar.recs()[i]));
    }
    lemma_parse_doc_rt(rs);
    assert forall|x: int, y: int|
        0 <= x < y < rs.len() implies (#[trigger] rs[x].domain, rs[x].path, rs[x].name) != (
    #[trigger] rs[y].domain,
    rs[y].path,
    rs[y].name,
    ) by {
        assert(crate::cookies::rec_key(jar.recs()[x]) != crate::cookies::rec_key(jar.recs()[y]));
    }
}

} // verus!
