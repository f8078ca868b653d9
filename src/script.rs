//! The script language: `@` directives, `#` comments and `$` type lines.
use vstd::prelude::*;
use vstd::slice::*;
use vstd::string::*;

use crate::keys::{bare_key, lemma_bare_key_shape, resolve, resolve_key, BACKSLASH, GT, LT};

verus! {

/// Index of the first `c` in `s`, or -1 where there is none.
pub open spec fn index_of(s: Seq<u8>, c: u8) -> int
    decreases s.len(),
{
    if s.len() == 0 {
        -1
    } else if s[0] == c {
        0
    } else {
        let r = index_of(s.drop_first(), c);
        if r < 0 {
            -1
        } else {
            r + 1
        }
    }
}

proof fn lemma_index_of(s: Seq<u8>, c: u8)
    ensures
        -1 <= index_of(s, c) < s.len(),
        index_of(s, c) >= 0 ==> s[index_of(s, c)] == c,
        forall|k: int| 0 <= k < s.len() && (index_of(s, c) < 0 || k < index_of(s, c)) ==> s[k] != c,
    decreases s.len(),
{
    if s.len() > 0 && s[0] != c {
        let t = s.drop_first();
        lemma_index_of(t, c);
        assert forall|k: int| 0 <= k < s.len() && (index_of(s, c) < 0 || k < index_of(s, c)) implies s[k] != c by {
            if k > 0 {
                assert(t[k - 1] == s[k]);
            }
        }
    }
}

/// Finds the first `c` in `s` at or after `from`.
fn find_from(s: &[u8], from: usize, c: u8) -> (r: Option<usize>)
    requires
        from <= s@.len(),
    ensures
        index_of(s@.subrange(from as int, s@.len() as int), c) == match r {
            Some(j) => j - from,
            None => -1int,
        },
        r is Some ==> from <= r->0 < s@.len(),
{
    let ghost t = s@.subrange(from as int, s@.len() as int);
    proof {
        lemma_index_of(t, c);
    }
    let mut j = from;
    while j < s.len()
        invariant
            from <= j <= s@.len(),
            t == s@.subrange(from as int, s@.len() as int),
            forall|k: int| from <= k < j ==> s@[k] != c,
        decreases s@.len() - j,
    {
        if s[j] == c {
            assert(t[j - from] == c);
            proof {
                lemma_index_of(t, c);
                let i = index_of(t, c);
                if 0 <= i < j - from {
                    assert(t[i] == s@[i + from]);
                }
            }
            return Some(j);
        }
        j = j + 1;
    }
    assert forall|k: int| 0 <= k < t.len() implies t[k] != c by {
        assert(t[k] == s@[k + from]);
    }
    None
}

/// The bytes a type line's text stands for: `\<` and `\>` are literal
/// brackets, `<spec>` is a key notation, and every other byte is itself.
pub open spec fn type_text(s: Seq<u8>) -> Seq<u8>
    decreases s.len(),
{
    if s.len() == 0 {
        Seq::empty()
    } else if s.len() >= 2 && s[0] == BACKSLASH && (s[1] == LT || s[1] == GT) {
        seq![s[1]] + type_text(s.subrange(2, s.len() as int))
    } else if s[0] == LT && 0 <= index_of(s.drop_first(), GT) && index_of(s.drop_first(), GT) + 2
        <= s.len() {
        let j = index_of(s.drop_first(), GT);
        resolve(s.subrange(1, j + 1)) + type_text(s.subrange(j + 2, s.len() as int))
    } else {
        seq![s[0]] + type_text(s.drop_first())
    }
}

/// Parses a key notation `<spec>` at the start of `input`: the bytes it
/// stands for and how many bytes it takes, or None where no `>` closes it.
pub fn parse_special_key(input: &[u8]) -> (r: Option<(Vec<u8>, usize)>)
    requires
        input@.len() > 0,
        input@[0] == LT,
    ensures
        match r {
            Some((b, k)) => {
                let j = index_of(input@.drop_first(), GT);
                &&& 0 <= j
                &&& k == j + 2
                &&& b@ == resolve(input@.subrange(1, j + 1))
            },
            None => index_of(input@.drop_first(), GT) < 0,
        },
{
    assert(input@.subrange(1, input@.len() as int) =~= input@.drop_first());
    let found = find_from(input, 1, GT);
    match found {
        Some(j) => {
            let key = slice_subrange(input, 1, j);
            assert(key@ == input@.subrange(1, j as int));
            let b = resolve_key(key);
            assert(index_of(input@.drop_first(), GT) + 1 == j);
            assert(j < input.len());
            Some((b, j + 1))
        },
        None => None,
    }
}

/// Expands the text of a type line into the bytes to send.
pub fn parse_type_content(input: &[u8]) -> (r: Vec<u8>)
    ensures
        r@ == type_text(input@),
{
    let mut out: Vec<u8> = Vec::new();
    let mut pos: usize = 0;
    let n = input.len();
    assert(input@.subrange(0, n as int) =~= input@);
    assert(out@ + type_text(input@) =~= type_text(input@));
    while pos < n
        invariant
            n == input@.len(),
            pos <= n,
            out@ + type_text(input@.subrange(pos as int, n as int)) == type_text(input@),
        decreases n - pos,
    {
        let rest = slice_subrange(input, pos, n);
        if pos + 1 < n && input[pos] == BACKSLASH && (input[pos + 1] == LT || input[pos + 1] == GT) {
            assert(rest@.subrange(2, rest@.len() as int) =~= input@.subrange(pos + 2, n as int));
            out.push(input[pos + 1]);
            assert(out@ + type_text(input@.subrange(pos + 2, n as int)) =~= type_text(input@));
            pos = pos + 2;
        } else {
            let found = if input[pos] == LT {
                parse_special_key(rest)
            } else {
                None
            };
            assert(rest@.drop_first() =~= input@.subrange(pos + 1, n as int));
            match found {
                Some((mut bytes, k)) => {
                    proof {
                        lemma_index_of(rest@.drop_first(), GT);
                    }
                    assert(rest@.subrange(k as int, rest@.len() as int) =~= input@.subrange(
                        pos + k,
                        n as int,
                    ));
                    let ghost before = out@;
                    out.append(&mut bytes);
                    assert(out@ + type_text(input@.subrange(pos + k, n as int)) =~= before
                        + type_text(rest@));
                    pos = pos + k;
                },
                None => {
                    out.push(input[pos]);
                    assert(out@ + type_text(input@.subrange(pos + 1, n as int)) =~= type_text(input@));
                    pos = pos + 1;
                },
            }
        }
    }
    assert(out@ =~= out@ + type_text(input@.subrange(n as int, n as int)));
    out
}

pub const NEWLINE: u8 = 0x0a;

pub const AT: u8 = 0x40;

pub const HASH: u8 = 0x23;

pub const DOLLAR: u8 = 0x24;

pub const COLON: u8 = 0x3a;

pub const DOT: u8 = 0x2e;

/// A non-negative decimal number held to nine places: `billionths` is the
/// number times 10^9. Script text may give more places; those are dropped.
#[derive(Clone, Copy, Debug, PartialEq, Eq)]
pub struct Decimal {
    pub billionths: u64,
}

/// One command of a script.
#[derive(Clone, Debug, PartialEq, Eq)]
pub enum Command {
    /// Seconds between keystrokes.
    SetSpeed(Decimal),
    /// Spread of the delay between keystrokes, as a fraction of the speed.
    SetJitter(Decimal),
    /// A pause, in seconds.
    Wait(Decimal),
    /// The shell to run; honoured only before the session opens.
    SetShell(Vec<u8>),
    /// Columns and rows of the session; honoured only before it opens.
    SetSize(u16, u16),
    /// Resolved bytes to type.
    Type(Vec<u8>),
}

pub enum CommandView {
    SetSpeed(u64),
    SetJitter(u64),
    Wait(u64),
    SetShell(Seq<u8>),
    SetSize(u16, u16),
    Type(Seq<u8>),
}

impl View for Command {
    type V = CommandView;

    open spec fn view(&self) -> CommandView {
        match self {
            Command::SetSpeed(d) => CommandView::SetSpeed(d.billionths),
            Command::SetJitter(d) => CommandView::SetJitter(d.billionths),
            Command::Wait(d) => CommandView::Wait(d.billionths),
            Command::SetShell(p) => CommandView::SetShell(p@),
            Command::SetSize(c, r) => CommandView::SetSize(*c, *r),
            Command::Type(t) => CommandView::Type(t@),
        }
    }
}

/// A compiled script: its commands in execution order.
#[derive(Debug)]
pub struct Script {
    pub commands: Vec<Command>,
}

pub open spec fn views(cs: Seq<Command>) -> Seq<CommandView> {
    cs.map_values(|c: Command| c@)
}

/// Why a script does not compile; `line` counts from 1.
#[derive(Clone, Debug, PartialEq, Eq)]
pub enum CompileError {
    /// The line fits none of the line forms.
    Syntax { line: usize },
    /// The line's command is followed by the text `rest`.
    Trailing { line: usize, rest: Vec<u8> },
}

pub enum CompileErrorView {
    Syntax(nat),
    Trailing(nat, Seq<u8>),
}

impl View for CompileError {
    type V = CompileErrorView;

    open spec fn view(&self) -> CompileErrorView {
        match self {
            CompileError::Syntax { line } => CompileErrorView::Syntax(*line as nat),
            CompileError::Trailing { line, rest } => CompileErrorView::Trailing(*line as nat, rest@),
        }
    }
}

/// An ASCII whitespace byte: space, tab, line feed, vertical tab, form feed
/// or carriage return.
pub open spec fn is_space(b: u8) -> bool {
    b == 0x20 || (0x09 <= b <= 0x0d)
}

/// The UTF-8 bytes `a b` of a two-byte whitespace character (U+0085, U+00A0).
pub open spec fn is_space2(a: u8, b: u8) -> bool {
    a == 0xc2 && (b == 0x85 || b == 0xa0)
}

/// The UTF-8 bytes `a b c` of a three-byte whitespace character (U+1680,
/// U+2000 to U+200A, U+2028, U+2029, U+202F, U+205F, U+3000).
pub open spec fn is_space3(a: u8, b: u8, c: u8) -> bool {
    (a == 0xe1 && b == 0x9a && c == 0x80) || (a == 0xe2 && b == 0x80 && ((0x80 <= c <= 0x8a)
        || c == 0xa8 || c == 0xa9 || c == 0xaf)) || (a == 0xe2 && b == 0x81 && c == 0x9f) || (a
        == 0xe3 && b == 0x80 && c == 0x80)
}

/// Length of the whitespace character that `s` begins with, or 0.
pub open spec fn lead_space(s: Seq<u8>) -> int {
    if s.len() >= 1 && is_space(s[0]) {
        1
    } else if s.len() >= 2 && is_space2(s[0], s[1]) {
        2
    } else if s.len() >= 3 && is_space3(s[0], s[1], s[2]) {
        3
    } else {
        0
    }
}

/// Length of the whitespace character that `s` ends with, or 0.
pub open spec fn trail_space(s: Seq<u8>) -> int {
    let n = s.len() as int;
    if n >= 1 && is_space(s[n - 1]) {
        1
    } else if n >= 2 && is_space2(s[n - 2], s[n - 1]) {
        2
    } else if n >= 3 && is_space3(s[n - 3], s[n - 2], s[n - 1]) {
        3
    } else {
        0
    }
}

pub open spec fn is_blank(b: u8) -> bool {
    b == 0x20 || b == 0x09
}

pub open spec fn is_digit(b: u8) -> bool {
    0x30 <= b <= 0x39
}

pub open spec fn trim_start(s: Seq<u8>) -> Seq<u8>
    decreases s.len(),
{
    let k = lead_space(s);
    if 0 < k <= s.len() {
        trim_start(s.subrange(k, s.len() as int))
    } else {
        s
    }
}

pub open spec fn trim_end(s: Seq<u8>) -> Seq<u8>
    decreases s.len(),
{
    let k = trail_space(s);
    if 0 < k <= s.len() {
        trim_end(s.subrange(0, s.len() - k))
    } else {
        s
    }
}

/// `s` without its leading and trailing whitespace.
pub open spec fn trim(s: Seq<u8>) -> Seq<u8> {
    trim_end(trim_start(s))
}

/// `s` without its leading spaces and tabs.
pub open spec fn skip_blanks(s: Seq<u8>) -> Seq<u8>
    decreases s.len(),
{
    if s.len() > 0 && is_blank(s[0]) {
        skip_blanks(s.drop_first())
    } else {
        s
    }
}

fn is_space_byte(b: u8) -> (r: bool)
    ensures
        r == is_space(b),
{
    b == 0x20 || (0x09 <= b && b <= 0x0d)
}

fn is_space3_bytes(a: u8, b: u8, c: u8) -> (r: bool)
    ensures
        r == is_space3(a, b, c),
{
    (a == 0xe1 && b == 0x9a && c == 0x80) || (a == 0xe2 && b == 0x80 && ((0x80 <= c && c <= 0x8a)
        || c == 0xa8 || c == 0xa9 || c == 0xaf)) || (a == 0xe2 && b == 0x81 && c == 0x9f) || (a
        == 0xe3 && b == 0x80 && c == 0x80)
}

/// Length of the whitespace character at `s[i..j]`'s start.
fn lead_space_at(s: &[u8], i: usize, j: usize) -> (r: usize)
    requires
        i <= j <= s@.len(),
    ensures
        r == lead_space(s@.subrange(i as int, j as int)),
{
    let ghost t = s@.subrange(i as int, j as int);
    if i < j {
        assert(t[0] == s@[i as int]);
    }
    if j - i >= 2 {
        assert(t[1] == s@[i + 1]);
    }
    if j - i >= 3 {
        assert(t[2] == s@[i + 2]);
    }
    if j - i >= 1 && is_space_byte(s[i]) {
        1
    } else if j - i >= 2 && s[i] == 0xc2 && (s[i + 1] == 0x85 || s[i + 1] == 0xa0) {
        2
    } else if j - i >= 3 && is_space3_bytes(s[i], s[i + 1], s[i + 2]) {
        3
    } else {
        0
    }
}

/// Length of the whitespace character at `s[i..j]`'s end.
fn trail_space_at(s: &[u8], i: usize, j: usize) -> (r: usize)
    requires
        i <= j <= s@.len(),
    ensures
        r == trail_space(s@.subrange(i as int, j as int)),
{
    let ghost t = s@.subrange(i as int, j as int);
    let n = j - i;
    if n >= 1 {
        assert(t[n - 1] == s@[j - 1]);
    }
    if n >= 2 {
        assert(t[n - 2] == s@[j - 2]);
    }
    if n >= 3 {
        assert(t[n - 3] == s@[j - 3]);
    }
    if n >= 1 && is_space_byte(s[j - 1]) {
        1
    } else if n >= 2 && s[j - 2] == 0xc2 && (s[j - 1] == 0x85 || s[j - 1] == 0xa0) {
        2
    } else if n >= 3 && is_space3_bytes(s[j - 3], s[j - 2], s[j - 1]) {
        3
    } else {
        0
    }
}

/// `s` without its leading and trailing whitespace.
pub fn trimmed<'a>(s: &'a [u8]) -> (r: &'a [u8])
    ensures
        r@ == trim(s@),
{
    let n = s.len();
    let mut i: usize = 0;
    assert(s@.subrange(0, n as int) =~= s@);
    let mut k = lead_space_at(s, 0, n);
    while k > 0
        invariant
            n == s@.len(),
            i <= n,
            k == lead_space(s@.subrange(i as int, n as int)),
            k <= n - i,
            trim_start(s@.subrange(i as int, n as int)) == trim_start(s@),
        decreases n - i,
    {
        assert(s@.subrange(i as int, n as int).subrange(k as int, n - i) =~= s@.subrange(
            i + k,
            n as int,
        ));
        i = i + k;
        k = lead_space_at(s, i, n);
    }
    let mut j: usize = n;
    let mut m = trail_space_at(s, i, j);
    while m > 0
        invariant
            n == s@.len(),
            i <= j <= n,
            m == trail_space(s@.subrange(i as int, j as int)),
            m <= j - i,
            trim_end(s@.subrange(i as int, j as int)) == trim(s@),
        decreases j - i,
    {
        assert(s@.subrange(i as int, j as int).subrange(0, j - i - m) =~= s@.subrange(
            i as int,
            j - m,
        ));
        j = j - m;
        m = trail_space_at(s, i, j);
    }
    slice_subrange(s, i, j)
}

pub fn skip_blanks_exec<'a>(s: &'a [u8]) -> (r: &'a [u8])
    ensures
        r@ == skip_blanks(s@),
{
    let n = s.len();
    let mut i: usize = 0;
    assert(s@.subrange(0, n as int) =~= s@);
    while i < n && (s[i] == 0x20 || s[i] == 0x09)
        invariant
            n == s@.len(),
            i <= n,
            skip_blanks(s@.subrange(i as int, n as int)) == skip_blanks(s@),
        decreases n - i,
    {
        assert(s@.subrange(i as int, n as int).drop_first() =~= s@.subrange(i + 1, n as int));
        i = i + 1;
    }
    slice_subrange(s, i, n)
}

/// Whether `s` begins with `p`.
pub open spec fn has_prefix(s: Seq<u8>, p: Seq<u8>) -> bool {
    p.len() <= s.len() && s.subrange(0, p.len() as int) == p
}

/// What follows the first `p.len()` bytes of `s`.
pub open spec fn after(s: Seq<u8>, p: Seq<u8>) -> Seq<u8> {
    s.subrange(p.len() as int, s.len() as int)
}

fn starts_with(s: &[u8], p: &str) -> (r: bool)
    ensures
        r == has_prefix(s@, p.spec_bytes()),
{
    let pb = p.as_bytes();
    if pb.len() > s.len() {
        return false;
    }
    crate::keys::bytes_eq(slice_subrange(s, 0, pb.len()), pb)
}

/// Number of leading ASCII digits of `s`.
pub open spec fn digit_count(s: Seq<u8>) -> nat
    decreases s.len(),
{
    if s.len() > 0 && is_digit(s[0]) {
        1 + digit_count(s.drop_first())
    } else {
        0
    }
}

/// The number that a string of ASCII digits writes in base ten.
pub open spec fn digits_value(s: Seq<u8>) -> int
    decreases s.len(),
{
    if s.len() == 0 {
        0
    } else {
        digits_value(s.drop_last()) * 10 + (s.last() - 0x30)
    }
}

proof fn lemma_digit_count(s: Seq<u8>, k: int)
    requires
        0 <= k <= s.len(),
        forall|i: int| 0 <= i < k ==> is_digit(s[i]),
        k == s.len() || !is_digit(s[k]),
    ensures
        digit_count(s) == k,
    decreases k,
{
    if k > 0 {
        let t = s.drop_first();
        assert forall|i: int| 0 <= i < k - 1 implies is_digit(t[i]) by {
            assert(t[i] == s[i + 1]);
        }
        if k < s.len() {
            assert(t[k - 1] == s[k]);
        }
        lemma_digit_count(t, k - 1);
    }
}

pub const BILLION: u64 = 1_000_000_000;

/// Largest whole part that a `Decimal` can hold.
pub const MAX_WHOLE: u64 = 18_446_744_073;

/// Reads the run of digits of `s` that starts at `from`: where it ends, and
/// its value unless that exceeds `cap` (then the flag is set).
fn read_digits(s: &[u8], from: usize, cap: u64) -> (r: (usize, u64, bool))
    requires
        from <= s@.len(),
        cap <= 100_000_000_000,
    ensures
        r.0 == from + digit_count(s@.subrange(from as int, s@.len() as int)),
        r.0 <= s@.len(),
        forall|k: int| from <= k < r.0 ==> is_digit(s@[k]),
        r.2 == (digits_value(s@.subrange(from as int, r.0 as int)) > cap),
        !r.2 ==> r.1 == digits_value(s@.subrange(from as int, r.0 as int)),
{
    let n = s.len();
    let mut i = from;
    let mut v: u64 = 0;
    let mut big = false;
    assert(s@.subrange(from as int, from as int) =~= Seq::<u8>::empty());
    while i < n && 0x30 <= s[i] && s[i] <= 0x39
        invariant
            n == s@.len(),
            from <= i <= n,
            forall|k: int| from <= k < i ==> is_digit(s@[k]),
            big == (digits_value(s@.subrange(from as int, i as int)) > cap),
            !big ==> v == digits_value(s@.subrange(from as int, i as int)),
            !big ==> v <= cap,
            cap <= 100_000_000_000,
            digits_value(s@.subrange(from as int, i as int)) >= 0,
        decreases n - i,
    {
        let ghost before = s@.subrange(from as int, i as int);
        assert(s@.subrange(from as int, i + 1).drop_last() =~= before);
        if !big {
            v = v * 10 + (s[i] - 0x30) as u64;
            if v > cap {
                big = true;
            }
        }
        i = i + 1;
    }
    let ghost t = s@.subrange(from as int, n as int);
    assert forall|k: int| 0 <= k < i - from implies is_digit(t[k]) by {
        assert(t[k] == s@[k + from]);
    }
    if i < n {
        assert(t[i - from] == s@[i as int]);
    }
    proof {
        lemma_digit_count(t, i - from);
    }
    (i, v, big)
}

/// Digit `i` of `f` as a number, 0 past its end.
pub open spec fn digit_at(f: Seq<u8>, i: int) -> int {
    if 0 <= i < f.len() {
        f[i] - 0x30
    } else {
        0
    }
}

/// The first `k` digits of `f`, padded with zeros, as a number.
pub open spec fn frac_value(f: Seq<u8>, k: nat) -> int
    decreases k,
{
    if k == 0 {
        0
    } else {
        frac_value(f, (k - 1) as nat) * 10 + digit_at(f, k - 1)
    }
}

pub open spec fn pow10(k: nat) -> int
    decreases k,
{
    if k == 0 {
        1
    } else {
        pow10((k - 1) as nat) * 10
    }
}

/// An unsigned decimal number at the start of `s` (digits, then optionally
/// `.` and more digits, with at least one digit in all): its value in
/// billionths, with any digits past the ninth decimal place dropped, and how
/// many bytes it takes. None where there is none or it does not fit.
pub open spec fn unsigned_number(s: Seq<u8>) -> Option<(u64, nat)> {
    let n1 = digit_count(s);
    let has_dot = n1 < s.len() && s[n1 as int] == DOT;
    let n2 = if has_dot { digit_count(s.subrange(n1 + 1int, s.len() as int)) } else { 0 };
    let used = if has_dot { n1 + 1 + n2 } else { n1 };
    let frac = if has_dot { s.subrange(n1 + 1int, used as int) } else { Seq::empty() };
    let v = digits_value(s.subrange(0, n1 as int)) * BILLION + frac_value(frac, 9);
    if n1 + n2 == 0 || v > u64::MAX {
        None
    } else {
        Some((v as u64, used))
    }
}

fn parse_unsigned(s: &[u8]) -> (r: Option<(u64, usize)>)
    ensures
        match r {
            Some((v, k)) => unsigned_number(s@) == Some((v, k as nat)) && k <= s@.len(),
            None => unsigned_number(s@) is None,
        },
{
    let n = s.len();
    let (n1, whole, big) = read_digits(s, 0, MAX_WHOLE);
    assert(s@.subrange(0, n as int) =~= s@);
    let has_dot = n1 < n && s[n1] == DOT;
    let (end, used) = if has_dot {
        let (e, _, _) = read_digits(s, n1 + 1, 0);
        (e, e)
    } else {
        (n1, n1)
    };
    if n1 == 0 && (!has_dot || end == n1 + 1) {
        return None;
    }
    let ghost frac = if has_dot { s@.subrange(n1 + 1, end as int) } else { Seq::<u8>::empty() };
    let mut acc: u64 = 0;
    let mut k: usize = 0;
    while k < 9
        invariant
            k <= 9,
            n == s@.len(),
            has_dot ==> n1 + 1 <= end <= n,
            has_dot ==> frac == s@.subrange(n1 + 1, end as int),
            !has_dot ==> frac.len() == 0,
            has_dot ==> forall|j: int| n1 + 1 <= j < end ==> is_digit(s@[j]),
            acc == frac_value(frac, k as nat),
            0 <= acc < pow10(k as nat),
        decreases 9 - k,
    {
        proof {
            reveal_with_fuel(pow10, 10);
        }
        let d: u64 = if has_dot && k < end - n1 - 1 {
            assert(frac[k as int] == s@[n1 + 1 + k]);
            (s[n1 + 1 + k] - 0x30) as u64
        } else {
            0
        };
        assert(d == digit_at(frac, k as int));
        assert(acc * 10 + d < pow10((k + 1) as nat));
        acc = acc * 10 + d;
        k = k + 1;
    }
    proof {
        reveal_with_fuel(pow10, 10);
    }
    let ghost v = digits_value(s@.subrange(0, n1 as int)) * BILLION + acc;
    if big {
        assert(v > u64::MAX) by (nonlinear_arith)
            requires
                digits_value(s@.subrange(0, n1 as int)) > MAX_WHOLE,
                v == digits_value(s@.subrange(0, n1 as int)) * BILLION + acc,
                acc >= 0,
        ;
        return None;
    }
    assert(whole * BILLION <= MAX_WHOLE * BILLION) by (nonlinear_arith)
        requires
            whole <= MAX_WHOLE,
    ;
    let hi = whole * BILLION;
    if acc > u64::MAX - hi {
        return None;
    }
    Some((hi + acc, used))
}

pub const PLUS: u8 = 0x2b;

/// The number that a directive takes: an unsigned decimal number, which may
/// have a leading `+`. The grammar has no minus sign (a negative speed, jitter
/// or wait has no meaning) and no exponent part. Its value is in billionths
/// and it takes the returned number of bytes.
pub open spec fn number(s: Seq<u8>) -> Option<(u64, nat)> {
    if s.len() > 0 && s[0] == PLUS {
        match unsigned_number(s.drop_first()) {
            Some((v, k)) => Some((v, k + 1)),
            None => None,
        }
    } else {
        unsigned_number(s)
    }
}

fn parse_number(s: &[u8]) -> (r: Option<(u64, usize)>)
    ensures
        match r {
            Some((v, k)) => number(s@) == Some((v, k as nat)),
            None => number(s@) is None,
        },
{
    if s.len() > 0 && s[0] == PLUS {
        let rest = slice_subrange(s, 1, s.len());
        assert(rest@ =~= s@.drop_first());
        match parse_unsigned(rest) {
            Some((v, k)) => Some((v, k + 1)),
            None => None,
        }
    } else {
        parse_unsigned(s)
    }
}

/// The three directives that take a decimal argument.
pub enum Setting {
    Speed,
    Jitter,
    Wait,
}

pub open spec fn setting_command(w: Setting, v: u64) -> CommandView {
    match w {
        Setting::Speed => CommandView::SetSpeed(v),
        Setting::Jitter => CommandView::SetJitter(v),
        Setting::Wait => CommandView::Wait(v),
    }
}

/// What one line of a script amounts to.
#[derive(Debug)]
pub enum Line {
    /// A blank line or a comment.
    Skip,
    Cmd(Command),
    /// The line fits none of the line forms.
    Syntax,
    /// A command followed by this text.
    Trailing(Vec<u8>),
}

pub enum LineView {
    Skip,
    Cmd(CommandView),
    Syntax,
    Trailing(Seq<u8>),
}

impl View for Line {
    type V = LineView;

    open spec fn view(&self) -> LineView {
        match self {
            Line::Skip => LineView::Skip,
            Line::Cmd(c) => LineView::Cmd(c@),
            Line::Syntax => LineView::Syntax,
            Line::Trailing(r) => LineView::Trailing(r@),
        }
    }
}

/// A directive whose argument `a` is a decimal number that ends the line.
pub open spec fn with_decimal(a: Seq<u8>, w: Setting) -> LineView {
    match number(a) {
        None => LineView::Syntax,
        Some((v, k)) => if k < a.len() {
            LineView::Trailing(a.subrange(k as int, a.len() as int))
        } else {
            LineView::Cmd(setting_command(w, v))
        },
    }
}

/// The argument `cols:rows` of a size directive, each a 16-bit number.
pub open spec fn with_size(a: Seq<u8>) -> LineView {
    let n1 = digit_count(a);
    let b = a.subrange(n1 + 1int, a.len() as int);
    let n2 = digit_count(b);
    let cols = digits_value(a.subrange(0, n1 as int));
    let rows = digits_value(b.subrange(0, n2 as int));
    if n1 == 0 || cols > 0xffff || n1 >= a.len() || a[n1 as int] != COLON || n2 == 0 || rows
        > 0xffff {
        LineView::Syntax
    } else if n2 < b.len() {
        LineView::Trailing(b.subrange(n2 as int, b.len() as int))
    } else {
        LineView::Cmd(CommandView::SetSize(cols as u16, rows as u16))
    }
}

/// A directive, from what follows `@` and its blanks.
pub open spec fn directive(d: Seq<u8>) -> LineView {
    if has_prefix(d, "speed:".spec_bytes()) {
        with_decimal(after(d, "speed:".spec_bytes()), Setting::Speed)
    } else if has_prefix(d, "jitter:".spec_bytes()) {
        with_decimal(after(d, "jitter:".spec_bytes()), Setting::Jitter)
    } else if has_prefix(d, "wait:".spec_bytes()) {
        with_decimal(after(d, "wait:".spec_bytes()), Setting::Wait)
    } else if has_prefix(d, "shell:".spec_bytes()) {
        LineView::Cmd(CommandView::SetShell(trim(after(d, "shell:".spec_bytes()))))
    } else if has_prefix(d, "size:".spec_bytes()) {
        with_size(after(d, "size:".spec_bytes()))
    } else {
        LineView::Syntax
    }
}

/// One line of a script, by its first byte once trimmed.
pub open spec fn line_outcome(line: Seq<u8>) -> LineView {
    let t = trim(line);
    if t.len() == 0 {
        LineView::Skip
    } else if t[0] == AT {
        directive(skip_blanks(t.drop_first()))
    } else if t[0] == HASH {
        LineView::Skip
    } else if t[0] == DOLLAR {
        LineView::Cmd(CommandView::Type(type_text(skip_blanks(t.drop_first()))))
    } else {
        LineView::Syntax
    }
}

pub open spec fn prepend(cs: Seq<CommandView>, r: Result<Seq<CommandView>, CompileErrorView>) -> Result<
    Seq<CommandView>,
    CompileErrorView,
> {
    match r {
        Ok(rest) => Ok(cs + rest),
        Err(e) => Err(e),
    }
}

/// The commands of `text`, whose first line has number `line`.
pub open spec fn compile_from(text: Seq<u8>, line: nat) -> Result<Seq<CommandView>, CompileErrorView>
    decreases text.len(),
{
    if text.len() == 0 {
        Ok(Seq::empty())
    } else {
        let j = index_of(text, NEWLINE);
        let last = !(0 <= j < text.len());
        let this = if last { text } else { text.subrange(0, j) };
        match line_outcome(this) {
            LineView::Syntax => Err(CompileErrorView::Syntax(line)),
            LineView::Trailing(r) => Err(CompileErrorView::Trailing(line, r)),
            LineView::Skip => if last {
                Ok(Seq::empty())
            } else {
                compile_from(text.subrange(j + 1, text.len() as int), line + 1)
            },
            LineView::Cmd(c) => if last {
                Ok(seq![c])
            } else {
                prepend(seq![c], compile_from(text.subrange(j + 1, text.len() as int), line + 1))
            },
        }
    }
}

/// The commands of a whole script, or the first line that does not compile.
pub open spec fn compile(text: Seq<u8>) -> Result<Seq<CommandView>, CompileErrorView> {
    compile_from(text, 1)
}

fn decimal_directive(a: &[u8], w: Setting) -> (r: Line)
    ensures
        r@ == with_decimal(a@, w),
{
    match parse_number(a) {
        None => Line::Syntax,
        Some((v, k)) => {
            if k < a.len() {
                Line::Trailing(slice_to_vec(slice_subrange(a, k, a.len())))
            } else {
                let d = Decimal { billionths: v };
                match w {
                    Setting::Speed => Line::Cmd(Command::SetSpeed(d)),
                    Setting::Jitter => Line::Cmd(Command::SetJitter(d)),
                    Setting::Wait => Line::Cmd(Command::Wait(d)),
                }
            }
        },
    }
}

fn size_directive(a: &[u8]) -> (r: Line)
    ensures
        r@ == with_size(a@),
{
    let n = a.len();
    assert(a@.subrange(0, n as int) =~= a@);
    let (n1, cols, big1) = read_digits(a, 0, 0xffff);
    if n1 == 0 || big1 || n1 >= n || a[n1] != COLON {
        return Line::Syntax;
    }
    let (e2, rows, big2) = read_digits(a, n1 + 1, 0xffff);
    let ghost b = a@.subrange(n1 + 1, n as int);
    assert(b.subrange(0, e2 - n1 - 1) =~= a@.subrange(n1 + 1, e2 as int));
    if e2 == n1 + 1 || big2 {
        return Line::Syntax;
    }
    if e2 < n {
        assert(b.subrange(e2 - n1 - 1, b.len() as int) =~= a@.subrange(e2 as int, n as int));
        return Line::Trailing(slice_to_vec(slice_subrange(a, e2, n)));
    }
    Line::Cmd(Command::SetSize(cols as u16, rows as u16))
}

/// Parses a directive from what follows `@` and its blanks.
pub fn parse_directive(d: &[u8]) -> (r: Line)
    ensures
        r@ == directive(d@),
{
    if starts_with(d, "speed:") {
        decimal_directive(slice_subrange(d, "speed:".as_bytes().len(), d.len()), Setting::Speed)
    } else if starts_with(d, "jitter:") {
        decimal_directive(slice_subrange(d, "jitter:".as_bytes().len(), d.len()), Setting::Jitter)
    } else if starts_with(d, "wait:") {
        decimal_directive(slice_subrange(d, "wait:".as_bytes().len(), d.len()), Setting::Wait)
    } else if starts_with(d, "shell:") {
        let path = trimmed(slice_subrange(d, "shell:".as_bytes().len(), d.len()));
        Line::Cmd(Command::SetShell(slice_to_vec(path)))
    } else if starts_with(d, "size:") {
        size_directive(slice_subrange(d, "size:".as_bytes().len(), d.len()))
    } else {
        Line::Syntax
    }
}

/// Parses one line of a script.
pub fn parse_line(line: &[u8]) -> (r: Line)
    ensures
        r@ == line_outcome(line@),
{
    let t = trimmed(line);
    if t.len() == 0 {
        return Line::Skip;
    }
    let body = slice_subrange(t, 1, t.len());
    assert(body@ =~= t@.drop_first());
    if t[0] == AT {
        parse_directive(skip_blanks_exec(body))
    } else if t[0] == HASH {
        Line::Skip
    } else if t[0] == DOLLAR {
        Line::Cmd(Command::Type(parse_type_content(skip_blanks_exec(body))))
    } else {
        Line::Syntax
    }
}

/// Compiles a whole script: its commands in order, or the error of its first
/// line that fits none of the line forms.
pub fn parse_script(input: &str) -> (r: Result<Script, CompileError>)
    requires
        input.spec_bytes().len() < usize::MAX,
    ensures
        match r {
            Ok(s) => compile(input.spec_bytes()) == Ok::<Seq<CommandView>, CompileErrorView>(
                views(s.commands@),
            ),
            Err(e) => compile(input.spec_bytes()) == Err::<Seq<CommandView>, CompileErrorView>(
                e@,
            ),
        },
{
    let text = input.as_bytes();
    let n = text.len();
    let mut commands: Vec<Command> = Vec::new();
    let mut pos: usize = 0;
    let mut line: usize = 1;
    assert(text@.subrange(0, n as int) =~= text@);
    assert(views(commands@) =~= Seq::<CommandView>::empty());
    assert(prepend(views(commands@), compile(text@)) =~= compile(text@)) by {
        match compile(text@) {
            Ok(x) => {
                assert(Seq::<CommandView>::empty() + x =~= x);
            },
            Err(_) => {},
        }
    }
    while pos < n
        invariant
            n == text@.len(),
            text@ == input.spec_bytes(),
            n < usize::MAX,
            pos <= n,
            1 <= line <= pos + 1,
            compile(text@) == prepend(
                views(commands@),
                compile_from(text@.subrange(pos as int, n as int), line as nat),
            ),
        decreases n - pos,
    {
        let ghost rest = text@.subrange(pos as int, n as int);
        let ghost before = views(commands@);
        let found = find_from(text, pos, NEWLINE);
        let end = match found {
            Some(j) => j,
            None => n,
        };
        let this = slice_subrange(text, pos, end);
        let next = match found {
            Some(j) => j + 1,
            None => n,
        };
        proof {
            if found is Some {
                assert(this@ =~= rest.subrange(0, end - pos));
                assert(rest.subrange(end - pos + 1, rest.len() as int) =~= text@.subrange(
                    next as int,
                    n as int,
                ));
            } else {
                assert(this@ =~= rest);
                assert(text@.subrange(n as int, n as int) =~= Seq::<u8>::empty());
            }
        }
        match parse_line(this) {
            Line::Syntax => {
                return Err(CompileError::Syntax { line });
            },
            Line::Trailing(r) => {
                return Err(CompileError::Trailing { line, rest: r });
            },
            Line::Skip => {},
            Line::Cmd(c) => {
                let ghost cv = c@;
                commands.push(c);
                assert(views(commands@) =~= before + seq![cv]);
                proof {
                    match compile_from(text@.subrange(next as int, n as int), (line + 1) as nat) {
                        Ok(x) => {
                            assert(before + seq![cv] + x =~= before + (seq![cv] + x));
                        },
                        Err(_) => {},
                    }
                }
            },
        }
        pos = next;
        line = line + 1;
    }
    proof {
        assert(views(commands@) + Seq::<CommandView>::empty() =~= views(commands@));
    }
    Ok(Script { commands })
}

proof fn lemma_plain_text(x: Seq<u8>, tail: Seq<u8>)
    requires
        forall|i: int| 0 <= i < x.len() ==> x[i] != LT && x[i] != BACKSLASH,
    ensures
        type_text(x + tail) == x + type_text(tail),
    decreases x.len(),
{
    if x.len() > 0 {
        let s = x + tail;
        assert(s[0] == x[0]);
        assert(s.drop_first() =~= x.drop_first() + tail);
        lemma_plain_text(x.drop_first(), tail);
        assert(seq![x[0]] + (x.drop_first() + type_text(tail)) =~= x + type_text(tail));
    } else {
        assert(x + tail =~= tail);
        assert(x + type_text(tail) =~= type_text(tail));
    }
}

/// Escaped brackets never start a key notation: the line `$ \<x\>`, for text
/// `x` without `<` or `\`, types `<x>`.
pub proof fn lemma_escaped_brackets(x: Seq<u8>)
    requires
        forall|i: int| 0 <= i < x.len() ==> x[i] != LT && x[i] != BACKSLASH,
    ensures
        line_outcome(seq![DOLLAR, 0x20u8, BACKSLASH, LT] + x + seq![BACKSLASH, GT])
            == LineView::Cmd(CommandView::Type(seq![LT] + x + seq![GT])),
{
    let l = seq![DOLLAR, 0x20u8, BACKSLASH, LT] + x + seq![BACKSLASH, GT];
    assert(l[0] == DOLLAR);
    assert(trim_start(l) == l);
    assert(l.last() == GT);
    assert(trim_end(l) == l);
    let b = seq![BACKSLASH, LT] + x + seq![BACKSLASH, GT];
    assert(l.drop_first().drop_first() =~= b);
    assert(b[0] == BACKSLASH);
    assert(skip_blanks(b) == b);
    assert(skip_blanks(l.drop_first()) == b);
    assert(b.subrange(2, b.len() as int) =~= x + seq![BACKSLASH, GT]);
    lemma_plain_text(x, seq![BACKSLASH, GT]);
    let e = seq![BACKSLASH, GT];
    assert(e.subrange(2, 2) =~= Seq::<u8>::empty());
    assert(e[0] == BACKSLASH && e[1] == GT);
    assert(type_text(Seq::<u8>::empty()) == Seq::<u8>::empty());
    assert(type_text(e) == seq![GT] + type_text(Seq::<u8>::empty()));
    assert(type_text(e) =~= seq![GT]);
    assert(seq![LT] + (x + seq![GT]) =~= seq![LT] + x + seq![GT]);
}

/// Whether every line of `text` is blank or a comment.
pub open spec fn only_comments(text: Seq<u8>) -> bool
    decreases text.len(),
{
    if text.len() == 0 {
        true
    } else {
        let j = index_of(text, NEWLINE);
        let last = !(0 <= j < text.len());
        let t = trim(if last { text } else { text.subrange(0, j) });
        (t.len() == 0 || t[0] == HASH) && (last || only_comments(
            text.subrange(j + 1, text.len() as int),
        ))
    }
}

proof fn lemma_comments_from(text: Seq<u8>, line: nat)
    requires
        only_comments(text),
    ensures
        compile_from(text, line) == Ok::<Seq<CommandView>, CompileErrorView>(Seq::empty()),
    decreases text.len(),
{
    if text.len() > 0 {
        let j = index_of(text, NEWLINE);
        if 0 <= j < text.len() {
            lemma_comments_from(text.subrange(j + 1, text.len() as int), line + 1);
        }
    }
}

/// A script of nothing but blank lines and comments compiles, to no commands.
pub proof fn lemma_comments_only(text: Seq<u8>)
    requires
        only_comments(text),
    ensures
        compile(text) == Ok::<Seq<CommandView>, CompileErrorView>(Seq::empty()),
{
    lemma_comments_from(text, 1);
}

/// The shell and size that a session for a script opens with.
pub struct SessionSettings {
    /// The shell that the script names, if it names one.
    pub shell: Option<Vec<u8>>,
    pub cols: u16,
    pub rows: u16,
}

pub const DEFAULT_COLS: u16 = 80;

pub const DEFAULT_ROWS: u16 = 24;

pub open spec fn opt_view(o: Option<Vec<u8>>) -> Option<Seq<u8>> {
    match o {
        Some(v) => Some(v@),
        None => None,
    }
}

/// The last shell and size commands before the first type command, over
/// the given starting values.
pub open spec fn settings_from(cmds: Seq<CommandView>, shell: Option<Seq<u8>>, cols: u16, rows: u16) -> (
    Option<Seq<u8>>,
    u16,
    u16,
)
    decreases cmds.len(),
{
    if cmds.len() == 0 {
        (shell, cols, rows)
    } else {
        match cmds[0] {
            CommandView::SetShell(p) => settings_from(cmds.drop_first(), Some(p), cols, rows),
            CommandView::SetSize(c, r) => settings_from(cmds.drop_first(), shell, c, r),
            CommandView::Type(_) => (shell, cols, rows),
            _ => settings_from(cmds.drop_first(), shell, cols, rows),
        }
    }
}

/// Scans a script, up to its first type command, for the shell and size of
/// its session (80 by 24 where it sets none).
pub fn session_settings(script: &Script) -> (r: SessionSettings)
    ensures
        (opt_view(r.shell), r.cols, r.rows) == settings_from(
            views(script.commands@),
            None,
            DEFAULT_COLS,
            DEFAULT_ROWS,
        ),
{
    let ghost all = views(script.commands@);
    let mut shell: Option<Vec<u8>> = None;
    let mut cols = DEFAULT_COLS;
    let mut rows = DEFAULT_ROWS;
    let mut i: usize = 0;
    assert(all.subrange(0, all.len() as int) =~= all);
    while i < script.commands.len()
        invariant
            i <= script.commands@.len(),
            all == views(script.commands@),
            settings_from(all, None, DEFAULT_COLS, DEFAULT_ROWS) == settings_from(
                all.subrange(i as int, all.len() as int),
                opt_view(shell),
                cols,
                rows,
            ),
        decreases script.commands@.len() - i,
    {
        let ghost rest = all.subrange(i as int, all.len() as int);
        assert(rest.drop_first() =~= all.subrange(i + 1, all.len() as int));
        assert(rest[0] == script.commands@[i as int]@);
        match &script.commands[i] {
            Command::SetShell(p) => {
                shell = Some(slice_to_vec(p.as_slice()));
            },
            Command::SetSize(c, r) => {
                cols = *c;
                rows = *r;
            },
            Command::Type(_) => {
                return SessionSettings { shell, cols, rows };
            },
            _ => {},
        }
        i = i + 1;
    }
    SessionSettings { shell, cols, rows }
}

/// The shell to run: the one asked for explicitly, else the script's, else
/// the environment's, else `bash`.
pub fn effective_shell(explicit: Option<Vec<u8>>, scripted: Option<Vec<u8>>, environment: Option<
    Vec<u8>,
>) -> (r: Vec<u8>)
    ensures
        r@ == match (opt_view(explicit), opt_view(scripted), opt_view(environment)) {
            (Some(e), _, _) => e,
            (None, Some(s), _) => s,
            (None, None, Some(v)) => v,
            (None, None, None) => "bash".spec_bytes(),
        },
{
    match explicit {
        Some(e) => e,
        None => match scripted {
            Some(s) => s,
            None => match environment {
                Some(v) => v,
                None => slice_to_vec("bash".as_bytes()),
            },
        },
    }
}

/// A bare key notation `<k>` in a type line stands for the key's fixed bytes,
/// whatever text follows it.
pub proof fn lemma_bare_key_notation(k: Seq<u8>, rest: Seq<u8>)
    requires
        bare_key(k) is Some,
    ensures
        type_text(seq![LT] + k + seq![GT] + rest) == bare_key(k)->0 + type_text(rest),
{
    reveal(resolve);
    lemma_bare_key_shape(k);
    let s = seq![LT] + k + seq![GT] + rest;
    let t = s.drop_first();
    assert(t =~= k + seq![GT] + rest);
    lemma_index_of(t, GT);
    let j = index_of(t, GT);
    assert(t[k.len() as int] == GT);
    if j < k.len() {
        assert(t[j] == k[j]);
    }
    assert(j == k.len());
    assert(s[0] == LT);
    assert(s.subrange(1, j + 1) =~= k);
    assert(s.subrange(j + 2, s.len() as int) =~= rest);
}

/// A blank or comment line `c` placed before a script adds, drops and
/// changes no command: only the line numbers of errors move down by one.
pub proof fn lemma_comment_line_first(c: Seq<u8>, text: Seq<u8>, line: nat)
    requires
        forall|i: int| 0 <= i < c.len() ==> c[i] != NEWLINE,
        trim(c).len() == 0 || trim(c)[0] == HASH,
    ensures
        compile_from(c + seq![NEWLINE] + text, line) == compile_from(text, line + 1),
{
    let s = c + seq![NEWLINE] + text;
    lemma_index_of(s, NEWLINE);
    let j = index_of(s, NEWLINE);
    assert(s[c.len() as int] == NEWLINE);
    if 0 <= j < c.len() {
        assert(s[j] == c[j]);
    }
    assert(j == c.len());
    assert(s.subrange(0, j) =~= c);
    assert(s.subrange(j + 1, s.len() as int) =~= text);
}

/// The commands of a compile result, or None for an error.
pub open spec fn commands_of(r: Result<Seq<CommandView>, CompileErrorView>) -> Option<
    Seq<CommandView>,
> {
    match r {
        Ok(cs) => Some(cs),
        Err(_) => None,
    }
}

proof fn lemma_line_numbers_irrelevant(t: Seq<u8>, l1: nat, l2: nat)
    ensures
        commands_of(compile_from(t, l1)) == commands_of(compile_from(t, l2)),
    decreases t.len(),
{
    if t.len() > 0 {
        let j = index_of(t, NEWLINE);
        if 0 <= j < t.len() {
            lemma_line_numbers_irrelevant(t.subrange(j + 1, t.len() as int), l1 + 1, l2 + 1);
        }
    }
}

/// Inserting a blank or comment line `c` after the whole lines `a` of a
/// script (`a` is empty or ends with a line feed) neither adds, drops nor
/// changes a command, and compiles exactly when the script did.
pub proof fn lemma_comment_line_inserted(a: Seq<u8>, c: Seq<u8>, b: Seq<u8>, line: nat)
    requires
        a.len() == 0 || a.last() == NEWLINE,
        forall|i: int| 0 <= i < c.len() ==> c[i] != NEWLINE,
        trim(c).len() == 0 || trim(c)[0] == HASH,
    ensures
        commands_of(compile_from(a + (c + seq![NEWLINE] + b), line)) == commands_of(
            compile_from(a + b, line),
        ),
    decreases a.len(),
{
    let x = c + seq![NEWLINE] + b;
    if a.len() == 0 {
        assert(a + x =~= x);
        assert(a + b =~= b);
        lemma_comment_line_first(c, b, line);
        lemma_line_numbers_irrelevant(b, line + 1, line);
    } else {
        lemma_index_of(a, NEWLINE);
        let j = index_of(a, NEWLINE);
        assert(a[a.len() - 1] == NEWLINE);
        let a2 = a.subrange(j + 1, a.len() as int);
        let s1 = a + x;
        let s2 = a + b;
        lemma_index_of(s1, NEWLINE);
        lemma_index_of(s2, NEWLINE);
        assert(s1[j] == a[j] && s2[j] == a[j]);
        if index_of(s1, NEWLINE) < j {
            assert(s1[index_of(s1, NEWLINE)] == a[index_of(s1, NEWLINE)]);
        }
        if index_of(s2, NEWLINE) < j {
            assert(s2[index_of(s2, NEWLINE)] == a[index_of(s2, NEWLINE)]);
        }
        assert(s1.subrange(0, j) =~= a.subrange(0, j));
        assert(s2.subrange(0, j) =~= a.subrange(0, j));
        assert(s1.subrange(j + 1, s1.len() as int) =~= a2 + x);
        assert(s2.subrange(j + 1, s2.len() as int) =~= a2 + b);
        if a2.len() > 0 {
            assert(a2.last() == a.last());
        }
        lemma_comment_line_inserted(a2, c, b, line + 1);
    }
}

/// A script of the single line `$ \<x\>`, for text `x` without `<`, `\` or
/// a line feed, compiles to one command that types `<x>`.
pub proof fn lemma_escaped_brackets_script(x: Seq<u8>)
    requires
        forall|i: int| 0 <= i < x.len() ==> x[i] != LT && x[i] != BACKSLASH && x[i] != NEWLINE,
    ensures
        compile(seq![DOLLAR, 0x20u8, BACKSLASH, LT] + x + seq![BACKSLASH, GT]) == Ok::<
            Seq<CommandView>,
            CompileErrorView,
        >(seq![CommandView::Type(seq![LT] + x + seq![GT])]),
{
    let l = seq![DOLLAR, 0x20u8, BACKSLASH, LT] + x + seq![BACKSLASH, GT];
    lemma_escaped_brackets(x);
    lemma_index_of(l, NEWLINE);
    let j = index_of(l, NEWLINE);
    if j >= 0 {
        if 4 <= j < 4 + x.len() {
            assert(l[j] == x[j - 4]);
        }
    }
    assert(j < 0);
}

} // verus!
