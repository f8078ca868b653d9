//! Symbolic key notation (`esc`, `F5`, `C-x`, `A-ret`, ...) resolved to the raw
//! bytes a terminal sends for that key.
use vstd::prelude::*;
use vstd::slice::*;
use vstd::string::*;

verus! {

pub const ESC: u8 = 0x1b;

pub const DASH: u8 = 0x2d;

pub const LT: u8 = 0x3c;

pub const GT: u8 = 0x3e;

pub const SPACE: u8 = 0x20;

pub const BACKSLASH: u8 = 0x5c;

pub const OPEN_BRACKET: u8 = 0x5b;

pub const CLOSE_BRACKET: u8 = 0x5d;

/// The text `<spec>`: what an unknown or unsupported key notation stands for.
pub open spec fn bracketed(s: Seq<u8>) -> Seq<u8> {
    seq![LT] + s + seq![GT]
}

pub open spec fn is_lower(b: u8) -> bool {
    0x61 <= b <= 0x7a
}

pub open spec fn is_upper(b: u8) -> bool {
    0x41 <= b <= 0x5a
}

pub open spec fn to_lower(b: u8) -> u8 {
    if is_upper(b) { (b + 0x20) as u8 } else { b }
}

pub open spec fn to_upper(b: u8) -> u8 {
    if is_lower(b) { (b - 0x20) as u8 } else { b }
}

/// The fixed byte sequence of each bare special key (ANSI / VT100 conventions).
pub open spec fn bare_key(k: Seq<u8>) -> Option<Seq<u8>> {
    if k == "esc".spec_bytes() {
        Some(seq![ESC])
    } else if k == "space".spec_bytes() {
        Some(seq![SPACE])
    } else if k == "ret".spec_bytes() || k == "return".spec_bytes() || k == "enter".spec_bytes() {
        Some(seq![0x0du8])
    } else if k == "tab".spec_bytes() {
        Some(seq![0x09u8])
    } else if k == "backspace".spec_bytes() || k == "bs".spec_bytes() {
        Some(seq![0x7fu8])
    } else if k == "F1".spec_bytes() {
        Some(seq![ESC, 0x4f, 0x50])
    } else if k == "F2".spec_bytes() {
        Some(seq![ESC, 0x4f, 0x51])
    } else if k == "F3".spec_bytes() {
        Some(seq![ESC, 0x4f, 0x52])
    } else if k == "F4".spec_bytes() {
        Some(seq![ESC, 0x4f, 0x53])
    } else if k == "F5".spec_bytes() {
        Some(seq![ESC, 0x5b, 0x31, 0x35, 0x7e])
    } else if k == "F6".spec_bytes() {
        Some(seq![ESC, 0x5b, 0x31, 0x37, 0x7e])
    } else if k == "F7".spec_bytes() {
        Some(seq![ESC, 0x5b, 0x31, 0x38, 0x7e])
    } else if k == "F8".spec_bytes() {
        Some(seq![ESC, 0x5b, 0x31, 0x39, 0x7e])
    } else if k == "F9".spec_bytes() {
        Some(seq![ESC, 0x5b, 0x32, 0x30, 0x7e])
    } else if k == "F10".spec_bytes() {
        Some(seq![ESC, 0x5b, 0x32, 0x31, 0x7e])
    } else if k == "F11".spec_bytes() {
        Some(seq![ESC, 0x5b, 0x32, 0x33, 0x7e])
    } else if k == "F12".spec_bytes() {
        Some(seq![ESC, 0x5b, 0x32, 0x34, 0x7e])
    } else if k == "up".spec_bytes() {
        Some(seq![ESC, 0x5b, 0x41])
    } else if k == "down".spec_bytes() {
        Some(seq![ESC, 0x5b, 0x42])
    } else if k == "right".spec_bytes() {
        Some(seq![ESC, 0x5b, 0x43])
    } else if k == "left".spec_bytes() {
        Some(seq![ESC, 0x5b, 0x44])
    } else if k == "home".spec_bytes() {
        Some(seq![ESC, 0x5b, 0x48])
    } else if k == "end".spec_bytes() {
        Some(seq![ESC, 0x5b, 0x46])
    } else if k == "pageup".spec_bytes() || k == "pgup".spec_bytes() {
        Some(seq![ESC, 0x5b, 0x35, 0x7e])
    } else if k == "pagedown".spec_bytes() || k == "pgdn".spec_bytes() {
        Some(seq![ESC, 0x5b, 0x36, 0x7e])
    } else if k == "insert".spec_bytes() || k == "ins".spec_bytes() {
        Some(seq![ESC, 0x5b, 0x32, 0x7e])
    } else if k == "delete".spec_bytes() || k == "del".spec_bytes() {
        Some(seq![ESC, 0x5b, 0x33, 0x7e])
    } else {
        None
    }
}

pub fn bytes_eq(a: &[u8], b: &[u8]) -> (r: bool)
    ensures
        r == (a@ == b@),
{
    if a.len() != b.len() {
        return false;
    }
    let mut i: usize = 0;
    while i < a.len()
        invariant
            a@.len() == b@.len(),
            i <= a@.len(),
            forall|k: int| 0 <= k < i ==> a@[k] == b@[k],
        decreases a@.len() - i,
    {
        if a[i] != b[i] {
            return false;
        }
        i = i + 1;
    }
    assert(a@ =~= b@);
    true
}

fn is_name(k: &[u8], name: &str) -> (r: bool)
    ensures
        r == (k@ == name.spec_bytes()),
{
    bytes_eq(k, name.as_bytes())
}

/// Resolves a bare special key name to its byte sequence.
pub fn special_key(k: &[u8]) -> (r: Option<Vec<u8>>)
    ensures
        match r {
            Some(v) => bare_key(k@) == Some(v@),
            None => bare_key(k@) is None,
        },
{
    if is_name(k, "esc") {
        Some(vec![ESC])
    } else if is_name(k, "space") {
        Some(vec![SPACE])
    } else if is_name(k, "ret") || is_name(k, "return") || is_name(k, "enter") {
        Some(vec![0x0d])
    } else if is_name(k, "tab") {
        Some(vec![0x09])
    } else if is_name(k, "backspace") || is_name(k, "bs") {
        Some(vec![0x7f])
    } else if is_name(k, "F1") {
        Some(vec![ESC, 0x4f, 0x50])
    } else if is_name(k, "F2") {
        Some(vec![ESC, 0x4f, 0x51])
    } else if is_name(k, "F3") {
        Some(vec![ESC, 0x4f, 0x52])
    } else if is_name(k, "F4") {
        Some(vec![ESC, 0x4f, 0x53])
    } else if is_name(k, "F5") {
        Some(vec![ESC, 0x5b, 0x31, 0x35, 0x7e])
    } else if is_name(k, "F6") {
        Some(vec![ESC, 0x5b, 0x31, 0x37, 0x7e])
    } else if is_name(k, "F7") {
        Some(vec![ESC, 0x5b, 0x31, 0x38, 0x7e])
    } else if is_name(k, "F8") {
        Some(vec![ESC, 0x5b, 0x31, 0x39, 0x7e])
    } else if is_name(k, "F9") {
        Some(vec![ESC, 0x5b, 0x32, 0x30, 0x7e])
    } else if is_name(k, "F10") {
        Some(vec![ESC, 0x5b, 0x32, 0x31, 0x7e])
    } else if is_name(k, "F11") {
        Some(vec![ESC, 0x5b, 0x32, 0x33, 0x7e])
    } else if is_name(k, "F12") {
        Some(vec![ESC, 0x5b, 0x32, 0x34, 0x7e])
    } else if is_name(k, "up") {
        Some(vec![ESC, 0x5b, 0x41])
    } else if is_name(k, "down") {
        Some(vec![ESC, 0x5b, 0x42])
    } else if is_name(k, "right") {
        Some(vec![ESC, 0x5b, 0x43])
    } else if is_name(k, "left") {
        Some(vec![ESC, 0x5b, 0x44])
    } else if is_name(k, "home") {
        Some(vec![ESC, 0x5b, 0x48])
    } else if is_name(k, "end") {
        Some(vec![ESC, 0x5b, 0x46])
    } else if is_name(k, "pageup") || is_name(k, "pgup") {
        Some(vec![ESC, 0x5b, 0x35, 0x7e])
    } else if is_name(k, "pagedown") || is_name(k, "pgdn") {
        Some(vec![ESC, 0x5b, 0x36, 0x7e])
    } else if is_name(k, "insert") || is_name(k, "ins") {
        Some(vec![ESC, 0x5b, 0x32, 0x7e])
    } else if is_name(k, "delete") || is_name(k, "del") {
        Some(vec![ESC, 0x5b, 0x33, 0x7e])
    } else {
        None
    }
}

/// A modifier of a key combination.
pub enum Modifier {
    Ctrl,
    Alt,
    Shift,
}

/// `t` with its ASCII capitals made lowercase.
pub open spec fn lowercase(t: Seq<u8>) -> Seq<u8> {
    t.map_values(|b: u8| to_lower(b))
}

/// Whether `t` is one of the spellings of modifier `m`, in any case:
/// `c` or `ctrl`; `a`, `alt`, `m` or `meta`; `s` or `shift`.
pub open spec fn names_modifier(t: Seq<u8>, m: Modifier) -> bool {
    let l = lowercase(t);
    match m {
        Modifier::Ctrl => l == "c".spec_bytes() || l == "ctrl".spec_bytes(),
        Modifier::Alt => l == "a".spec_bytes() || l == "alt".spec_bytes() || l == "m".spec_bytes()
            || l == "meta".spec_bytes(),
        Modifier::Shift => l == "s".spec_bytes() || l == "shift".spec_bytes(),
    }
}

/// Index of the last `-` of `s`, or -1 where there is none.
pub open spec fn last_dash(s: Seq<u8>) -> int
    decreases s.len(),
{
    if s.len() == 0 {
        -1
    } else if s.last() == DASH {
        s.len() - 1
    } else {
        last_dash(s.drop_last())
    }
}

/// Whether a token of `s` that a `-` ends names modifier `m`.
pub open spec fn has_modifier(s: Seq<u8>, m: Modifier) -> bool
    decreases s.len(),
{
    let d = last_dash(s);
    if 0 <= d < s.len() {
        let p = s.subrange(0, d);
        has_modifier(p, m) || names_modifier(p.subrange(last_dash(p) + 1, p.len() as int), m)
    } else {
        false
    }
}

/// The base key of a combination: what follows its last `-`.
pub open spec fn combo_key(s: Seq<u8>) -> Seq<u8> {
    s.subrange(last_dash(s) + 1, s.len() as int)
}

/// The bytes of a modifier combination such as `C-x`, `A-ret` or `C-S-a`.
pub open spec fn combo(s: Seq<u8>) -> Seq<u8> {
    let key = combo_key(s);
    let ctrl = has_modifier(s, Modifier::Ctrl);
    let alt = has_modifier(s, Modifier::Alt);
    let shift = has_modifier(s, Modifier::Shift);
    let single = key.len() == 1;
    let base = match bare_key(key) {
        Some(b) => b,
        None => key,
    };
    if last_dash(s) < 0 || (bare_key(key) is None && !single) {
        bracketed(s)
    } else if ctrl && !alt && !shift {
        if single {
            let ch = to_lower(key[0]);
            if is_lower(ch) {
                seq![(ch - 0x60) as u8]
            } else if ch == SPACE {
                seq![0u8]
            } else if ch == OPEN_BRACKET {
                seq![ESC]
            } else if ch == CLOSE_BRACKET {
                seq![0x1du8]
            } else if ch == BACKSLASH {
                seq![0x1cu8]
            } else {
                bracketed(s)
            }
        } else if key == "space".spec_bytes() {
            seq![0u8]
        } else {
            bracketed(s)
        }
    } else if alt && !ctrl {
        seq![ESC] + base
    } else if shift && !ctrl && !alt && single {
        seq![to_upper(key[0])]
    } else if ctrl && shift && !alt && single && is_upper(to_upper(key[0])) {
        seq![(to_upper(key[0]) - 0x40) as u8]
    } else if ctrl && alt && single && is_lower(to_lower(key[0])) {
        seq![ESC, (to_lower(key[0]) - 0x60) as u8]
    } else if ctrl && alt && !single {
        seq![ESC] + base
    } else {
        bracketed(s)
    }
}

/// The bytes for the text between `<` and `>`: a bare key, a combination, or
/// the bracketed text itself where the notation is not recognised.
#[verifier::opaque]
pub open spec fn resolve(k: Seq<u8>) -> Seq<u8> {
    match bare_key(k) {
        Some(b) => b,
        None => if last_dash(k) >= 0 {
            combo(k)
        } else {
            bracketed(k)
        },
    }
}

proof fn lemma_last_dash_range(s: Seq<u8>)
    ensures
        -1 <= last_dash(s) < s.len(),
        last_dash(s) >= 0 ==> s[last_dash(s)] == DASH,
        forall|k: int| last_dash(s) < k < s.len() ==> s[k] != DASH,
    decreases s.len(),
{
    if s.len() > 0 && s.last() != DASH {
        let t = s.drop_last();
        lemma_last_dash_range(t);
        assert forall|k: int| last_dash(s) < k < s.len() implies s[k] != DASH by {
            if k < s.len() - 1 {
                assert(t[k] == s[k]);
            }
        }
        if last_dash(t) >= 0 {
            assert(t[last_dash(t)] == s[last_dash(t)]);
        }
    }
}

pub fn bracket(s: &[u8]) -> (r: Vec<u8>)
    ensures
        r@ == bracketed(s@),
{
    let mut r = vec![LT];
    let mut mid = slice_to_vec(s);
    r.append(&mut mid);
    r.push(GT);
    r
}

fn esc_prefixed(mut b: Vec<u8>) -> (r: Vec<u8>)
    ensures
        r@ == seq![ESC] + b@,
{
    let mut r = vec![ESC];
    r.append(&mut b);
    r
}

fn lowercase_bytes(t: &[u8]) -> (r: Vec<u8>)
    ensures
        r@ == lowercase(t@),
{
    let mut r: Vec<u8> = Vec::new();
    let mut i: usize = 0;
    while i < t.len()
        invariant
            i <= t@.len(),
            r@ == lowercase(t@.subrange(0, i as int)),
        decreases t@.len() - i,
    {
        let b = t[i];
        let l = if 0x41 <= b && b <= 0x5a { b + 0x20 } else { b };
        r.push(l);
        assert(lowercase(t@.subrange(0, i + 1)) =~= lowercase(t@.subrange(0, i as int)).push(l));
        i = i + 1;
    }
    assert(t@.subrange(0, t@.len() as int) =~= t@);
    r
}

fn token_modifiers(t: &[u8]) -> (r: (bool, bool, bool))
    ensures
        r.0 == names_modifier(t@, Modifier::Ctrl),
        r.1 == names_modifier(t@, Modifier::Alt),
        r.2 == names_modifier(t@, Modifier::Shift),
{
    let l = lowercase_bytes(t);
    let l = l.as_slice();
    let ctrl = is_name(l, "c") || is_name(l, "ctrl");
    let alt = is_name(l, "a") || is_name(l, "alt") || is_name(l, "m") || is_name(l, "meta");
    let shift = is_name(l, "s") || is_name(l, "shift");
    (ctrl, alt, shift)
}

/// Finds the modifiers of a combination and where its base key starts.
fn scan_combo(s: &[u8]) -> (r: (bool, bool, bool, usize))
    ensures
        r.0 == has_modifier(s@, Modifier::Ctrl),
        r.1 == has_modifier(s@, Modifier::Alt),
        r.2 == has_modifier(s@, Modifier::Shift),
        r.3 == last_dash(s@) + 1,
{
    let mut ctrl = false;
    let mut alt = false;
    let mut shift = false;
    let mut start: usize = 0;
    let mut i: usize = 0;
    while i < s.len()
        invariant
            i <= s@.len(),
            start == last_dash(s@.subrange(0, i as int)) + 1,
            ctrl == has_modifier(s@.subrange(0, i as int), Modifier::Ctrl),
            alt == has_modifier(s@.subrange(0, i as int), Modifier::Alt),
            shift == has_modifier(s@.subrange(0, i as int), Modifier::Shift),
        decreases s@.len() - i,
    {
        let ghost p = s@.subrange(0, i as int);
        let ghost q = s@.subrange(0, i + 1);
        proof {
            lemma_last_dash_range(p);
            assert(q.drop_last() =~= p);
            assert(q.last() == s@[i as int]);
        }
        if s[i] == DASH {
            let t = slice_subrange(s, start, i);
            let (c, a, h) = token_modifiers(t);
            proof {
                assert(q.subrange(0, i as int) =~= p);
                assert(t@ =~= p.subrange(last_dash(p) + 1, p.len() as int));
            }
            ctrl = ctrl || c;
            alt = alt || a;
            shift = shift || h;
            start = i + 1;
        } else {
            proof {
                let d = last_dash(p);
                if 0 <= d {
                    assert(q.subrange(0, d) =~= p.subrange(0, d));
                }
            }
        }
        i = i + 1;
    }
    assert(s@.subrange(0, s@.len() as int) =~= s@);
    (ctrl, alt, shift, start)
}

/// Resolves a modifier combination such as `C-x`, `A-ret` or `C-S-a`.
pub fn parse_modifier_combo(spec: &[u8]) -> (r: Vec<u8>)
    ensures
        r@ == combo(spec@),
{
    let (ctrl, alt, shift, start) = scan_combo(spec);
    proof {
        lemma_last_dash_range(spec@);
    }
    if start == 0 {
        return bracket(spec);
    }
    let key = slice_subrange(spec, start, spec.len());
    assert(key@ == combo_key(spec@));
    let single = key.len() == 1;
    let base = match special_key(key) {
        Some(b) => b,
        None => {
            if !single {
                return bracket(spec);
            }
            slice_to_vec(key)
        },
    };
    if ctrl && !alt && !shift {
        if single {
            let ch = if 0x41 <= key[0] && key[0] <= 0x5a { key[0] + 0x20 } else { key[0] };
            if 0x61 <= ch && ch <= 0x7a {
                return vec![ch - 0x60];
            } else if ch == SPACE {
                return vec![0];
            } else if ch == OPEN_BRACKET {
                return vec![ESC];
            } else if ch == CLOSE_BRACKET {
                return vec![0x1d];
            } else if ch == BACKSLASH {
                return vec![0x1c];
            } else {
                return bracket(spec);
            }
        } else if is_name(key, "space") {
            return vec![0];
        } else {
            return bracket(spec);
        }
    }
    if alt && !ctrl {
        return esc_prefixed(base);
    }
    if single {
        let upper = if 0x61 <= key[0] && key[0] <= 0x7a { key[0] - 0x20 } else { key[0] };
        let lower = if 0x41 <= key[0] && key[0] <= 0x5a { key[0] + 0x20 } else { key[0] };
        if shift && !ctrl && !alt {
            return vec![upper];
        }
        if ctrl && shift && !alt && 0x41 <= upper && upper <= 0x5a {
            return vec![upper - 0x40];
        }
        if ctrl && alt && 0x61 <= lower && lower <= 0x7a {
            return vec![ESC, lower - 0x60];
        }
    } else if ctrl && alt {
        return esc_prefixed(base);
    }
    bracket(spec)
}

/// Resolves the text between `<` and `>` of a type line.
pub fn resolve_key(k: &[u8]) -> (r: Vec<u8>)
    ensures
        r@ == resolve(k@),
{
    reveal(resolve);
    match special_key(k) {
        Some(b) => b,
        None => {
            let (_, _, _, start) = scan_combo(k);
            if start > 0 {
                parse_modifier_combo(k)
            } else {
                bracket(k)
            }
        },
    }
}

/// The bytes of each bare key name.
proof fn lemma_key_names()
    ensures
        "esc".spec_bytes() == seq![0x65u8, 0x73, 0x63],
        "space".spec_bytes() == seq![0x73u8, 0x70, 0x61, 0x63, 0x65],
        "ret".spec_bytes() == seq![0x72u8, 0x65, 0x74],
        "return".spec_bytes() == seq![0x72u8, 0x65, 0x74, 0x75, 0x72, 0x6e],
        "enter".spec_bytes() == seq![0x65u8, 0x6e, 0x74, 0x65, 0x72],
        "tab".spec_bytes() == seq![0x74u8, 0x61, 0x62],
        "backspace".spec_bytes() == seq![0x62u8, 0x61, 0x63, 0x6b, 0x73, 0x70, 0x61, 0x63, 0x65],
        "bs".spec_bytes() == seq![0x62u8, 0x73],
        "F1".spec_bytes() == seq![0x46u8, 0x31],
        "F2".spec_bytes() == seq![0x46u8, 0x32],
        "F3".spec_bytes() == seq![0x46u8, 0x33],
        "F4".spec_bytes() == seq![0x46u8, 0x34],
        "F5".spec_bytes() == seq![0x46u8, 0x35],
        "F6".spec_bytes() == seq![0x46u8, 0x36],
        "F7".spec_bytes() == seq![0x46u8, 0x37],
        "F8".spec_bytes() == seq![0x46u8, 0x38],
        "F9".spec_bytes() == seq![0x46u8, 0x39],
        "F10".spec_bytes() == seq![0x46u8, 0x31, 0x30],
        "F11".spec_bytes() == seq![0x46u8, 0x31, 0x31],
        "F12".spec_bytes() == seq![0x46u8, 0x31, 0x32],
        "up".spec_bytes() == seq![0x75u8, 0x70],
        "down".spec_bytes() == seq![0x64u8, 0x6f, 0x77, 0x6e],
        "right".spec_bytes() == seq![0x72u8, 0x69, 0x67, 0x68, 0x74],
        "left".spec_bytes() == seq![0x6cu8, 0x65, 0x66, 0x74],
        "home".spec_bytes() == seq![0x68u8, 0x6f, 0x6d, 0x65],
        "end".spec_bytes() == seq![0x65u8, 0x6e, 0x64],
        "pageup".spec_bytes() == seq![0x70u8, 0x61, 0x67, 0x65, 0x75, 0x70],
        "pgup".spec_bytes() == seq![0x70u8, 0x67, 0x75, 0x70],
        "pagedown".spec_bytes() == seq![0x70u8, 0x61, 0x67, 0x65, 0x64, 0x6f, 0x77, 0x6e],
        "pgdn".spec_bytes() == seq![0x70u8, 0x67, 0x64, 0x6e],
        "insert".spec_bytes() == seq![0x69u8, 0x6e, 0x73, 0x65, 0x72, 0x74],
        "ins".spec_bytes() == seq![0x69u8, 0x6e, 0x73],
        "delete".spec_bytes() == seq![0x64u8, 0x65, 0x6c, 0x65, 0x74, 0x65],
        "del".spec_bytes() == seq![0x64u8, 0x65, 0x6c],
{
    broadcast use vstd::string::is_ascii_spec_bytes;

    reveal_strlit("esc");
    assert(is_ascii("esc"));
    assert("esc".spec_bytes() =~= seq![0x65u8, 0x73, 0x63]);
    reveal_strlit("space");
    assert(is_ascii("space"));
    assert("space".spec_bytes() =~= seq![0x73u8, 0x70, 0x61, 0x63, 0x65]);
    reveal_strlit("ret");
    assert(is_ascii("ret"));
    assert("ret".spec_bytes() =~= seq![0x72u8, 0x65, 0x74]);
    reveal_strlit("return");
    assert(is_ascii("return"));
    assert("return".spec_bytes() =~= seq![0x72u8, 0x65, 0x74, 0x75, 0x72, 0x6e]);
    reveal_strlit("enter");
    assert(is_ascii("enter"));
    assert("enter".spec_bytes() =~= seq![0x65u8, 0x6e, 0x74, 0x65, 0x72]);
    reveal_strlit("tab");
    assert(is_ascii("tab"));
    assert("tab".spec_bytes() =~= seq![0x74u8, 0x61, 0x62]);
    reveal_strlit("backspace");
    assert(is_ascii("backspace"));
    assert("backspace".spec_bytes() =~= seq![0x62u8, 0x61, 0x63, 0x6b, 0x73, 0x70, 0x61, 0x63, 0x65]);
    reveal_strlit("bs");
    assert(is_ascii("bs"));
    assert("bs".spec_bytes() =~= seq![0x62u8, 0x73]);
    reveal_strlit("F1");
    assert(is_ascii("F1"));
    assert("F1".spec_bytes() =~= seq![0x46u8, 0x31]);
    reveal_strlit("F2");
    assert(is_ascii("F2"));
    assert("F2".spec_bytes() =~= seq![0x46u8, 0x32]);
    reveal_strlit("F3");
    assert(is_ascii("F3"));
    assert("F3".spec_bytes() =~= seq![0x46u8, 0x33]);
    reveal_strlit("F4");
    assert(is_ascii("F4"));
    assert("F4".spec_bytes() =~= seq![0x46u8, 0x34]);
    reveal_strlit("F5");
    assert(is_ascii("F5"));
    assert("F5".spec_bytes() =~= seq![0x46u8, 0x35]);
    reveal_strlit("F6");
    assert(is_ascii("F6"));
    assert("F6".spec_bytes() =~= seq![0x46u8, 0x36]);
    reveal_strlit("F7");
    assert(is_ascii("F7"));
    assert("F7".spec_bytes() =~= seq![0x46u8, 0x37]);
    reveal_strlit("F8");
    assert(is_ascii("F8"));
    assert("F8".spec_bytes() =~= seq![0x46u8, 0x38]);
    reveal_strlit("F9");
    assert(is_ascii("F9"));
    assert("F9".spec_bytes() =~= seq![0x46u8, 0x39]);
    reveal_strlit("F10");
    assert(is_ascii("F10"));
    assert("F10".spec_bytes() =~= seq![0x46u8, 0x31, 0x30]);
    reveal_strlit("F11");
    assert(is_ascii("F11"));
    assert("F11".spec_bytes() =~= seq![0x46u8, 0x31, 0x31]);
    reveal_strlit("F12");
    assert(is_ascii("F12"));
    assert("F12".spec_bytes() =~= seq![0x46u8, 0x31, 0x32]);
    reveal_strlit("up");
    assert(is_ascii("up"));
    assert("up".spec_bytes() =~= seq![0x75u8, 0x70]);
    reveal_strlit("down");
    assert(is_ascii("down"));
    assert("down".spec_bytes() =~= seq![0x64u8, 0x6f, 0x77, 0x6e]);
    reveal_strlit("right");
    assert(is_ascii("right"));
    assert("right".spec_bytes() =~= seq![0x72u8, 0x69, 0x67, 0x68, 0x74]);
    reveal_strlit("left");
    assert(is_ascii("left"));
    assert("left".spec_bytes() =~= seq![0x6cu8, 0x65, 0x66, 0x74]);
    reveal_strlit("home");
    assert(is_ascii("home"));
    assert("home".spec_bytes() =~= seq![0x68u8, 0x6f, 0x6d, 0x65]);
    reveal_strlit("end");
    assert(is_ascii("end"));
    assert("end".spec_bytes() =~= seq![0x65u8, 0x6e, 0x64]);
    reveal_strlit("pageup");
    assert(is_ascii("pageup"));
    assert("pageup".spec_bytes() =~= seq![0x70u8, 0x61, 0x67, 0x65, 0x75, 0x70]);
    reveal_strlit("pgup");
    assert(is_ascii("pgup"));
    assert("pgup".spec_bytes() =~= seq![0x70u8, 0x67, 0x75, 0x70]);
    reveal_strlit("pagedown");
    assert(is_ascii("pagedown"));
    assert("pagedown".spec_bytes() =~= seq![0x70u8, 0x61, 0x67, 0x65, 0x64, 0x6f, 0x77, 0x6e]);
    reveal_strlit("pgdn");
    assert(is_ascii("pgdn"));
    assert("pgdn".spec_bytes() =~= seq![0x70u8, 0x67, 0x64, 0x6e]);
    reveal_strlit("insert");
    assert(is_ascii("insert"));
    assert("insert".spec_bytes() =~= seq![0x69u8, 0x6e, 0x73, 0x65, 0x72, 0x74]);
    reveal_strlit("ins");
    assert(is_ascii("ins"));
    assert("ins".spec_bytes() =~= seq![0x69u8, 0x6e, 0x73]);
    reveal_strlit("delete");
    assert(is_ascii("delete"));
    assert("delete".spec_bytes() =~= seq![0x64u8, 0x65, 0x6c, 0x65, 0x74, 0x65]);
    reveal_strlit("del");
    assert(is_ascii("del"));
    assert("del".spec_bytes() =~= seq![0x64u8, 0x65, 0x6c]);
}

/// The bytes of each modifier name.
proof fn lemma_modifier_names()
    ensures
        "c".spec_bytes() == seq![0x63u8],
        "ctrl".spec_bytes() == seq![0x63u8, 0x74, 0x72, 0x6c],
        "a".spec_bytes() == seq![0x61u8],
        "alt".spec_bytes() == seq![0x61u8, 0x6c, 0x74],
        "m".spec_bytes() == seq![0x6du8],
        "meta".spec_bytes() == seq![0x6du8, 0x65, 0x74, 0x61],
        "s".spec_bytes() == seq![0x73u8],
        "shift".spec_bytes() == seq![0x73u8, 0x68, 0x69, 0x66, 0x74],
{
    broadcast use vstd::string::is_ascii_spec_bytes;

    reveal_strlit("c");
    assert(is_ascii("c"));
    assert("c".spec_bytes() =~= seq![0x63u8]);
    reveal_strlit("ctrl");
    assert(is_ascii("ctrl"));
    assert("ctrl".spec_bytes() =~= seq![0x63u8, 0x74, 0x72, 0x6c]);
    reveal_strlit("a");
    assert(is_ascii("a"));
    assert("a".spec_bytes() =~= seq![0x61u8]);
    reveal_strlit("alt");
    assert(is_ascii("alt"));
    assert("alt".spec_bytes() =~= seq![0x61u8, 0x6c, 0x74]);
    reveal_strlit("m");
    assert(is_ascii("m"));
    assert("m".spec_bytes() =~= seq![0x6du8]);
    reveal_strlit("meta");
    assert(is_ascii("meta"));
    assert("meta".spec_bytes() =~= seq![0x6du8, 0x65, 0x74, 0x61]);
    reveal_strlit("s");
    assert(is_ascii("s"));
    assert("s".spec_bytes() =~= seq![0x73u8]);
    reveal_strlit("shift");
    assert(is_ascii("shift"));
    assert("shift".spec_bytes() =~= seq![0x73u8, 0x68, 0x69, 0x66, 0x74]);
}

/// A bare key name is at least two bytes long and holds no `-`.
pub proof fn lemma_bare_key_shape(k: Seq<u8>)
    ensures
        bare_key(k) is Some ==> k.len() >= 2 && forall|i: int|
            0 <= i < k.len() ==> k[i] != DASH && k[i] != GT,
        k.len() >= 2 && k[1] == DASH ==> bare_key(k) is None,
{
    lemma_key_names();
}

/// `C` names Ctrl alone, and `A` Alt alone.
proof fn lemma_modifier_letters()
    ensures
        names_modifier(seq![0x43u8], Modifier::Ctrl),
        !names_modifier(seq![0x43u8], Modifier::Alt),
        !names_modifier(seq![0x43u8], Modifier::Shift),
        !names_modifier(seq![0x41u8], Modifier::Ctrl),
        names_modifier(seq![0x41u8], Modifier::Alt),
        !names_modifier(seq![0x41u8], Modifier::Shift),
{
    lemma_modifier_names();
    assert(lowercase(seq![0x43u8]) =~= seq![0x63u8]);
    assert(lowercase(seq![0x41u8]) =~= seq![0x61u8]);
    assert(seq![0x61u8][0] == 0x61 && seq![0x6du8][0] == 0x6d);
    assert(seq![0x73u8][0] == 0x73 && seq![0x63u8][0] == 0x63);
}

/// A combination of one modifier byte `m` and a key `k` without `-`.
proof fn lemma_one_modifier(m: u8, k: Seq<u8>)
    requires
        m != DASH,
        forall|i: int| 0 <= i < k.len() ==> k[i] != DASH,
    ensures
        last_dash(seq![m, DASH] + k) == 1,
        combo_key(seq![m, DASH] + k) == k,
        has_modifier(seq![m, DASH] + k, Modifier::Ctrl) == names_modifier(seq![m], Modifier::Ctrl),
        has_modifier(seq![m, DASH] + k, Modifier::Alt) == names_modifier(seq![m], Modifier::Alt),
        has_modifier(seq![m, DASH] + k, Modifier::Shift) == names_modifier(seq![m], Modifier::Shift),
{
    let s = seq![m, DASH] + k;
    lemma_last_dash_range(s);
    let d = last_dash(s);
    if d > 1 {
        assert(s[d] == k[d - 2]);
    }
    if d < 1 {
        assert(s[1] == DASH);
    }
    assert(d == 1);
    let p = s.subrange(0, 1);
    assert(p =~= seq![m]);
    assert(p.drop_last() =~= Seq::<u8>::empty());
    assert(last_dash(Seq::<u8>::empty()) == -1);
    assert(p.last() == m);
    assert(last_dash(p) == -1);
    assert(p.subrange(0, 1) =~= p);
    assert(!has_modifier(p, Modifier::Ctrl));
    assert(!has_modifier(p, Modifier::Alt));
    assert(!has_modifier(p, Modifier::Shift));
    assert(s.subrange(2, s.len() as int) =~= k);
}

/// Every bare key name resolves to its fixed byte sequence.
pub proof fn lemma_bare_keys(k: Seq<u8>)
    requires
        bare_key(k) is Some,
    ensures
        resolve(k) == bare_key(k)->0,
{
    reveal(resolve);
}

proof fn lemma_ctrl_letter(x: u8)
    requires
        is_lower(x),
    ensures
        resolve(seq![0x43u8, DASH, x]) == seq![(x - 0x60) as u8],
{
    reveal(resolve);
    lemma_bare_key_shape(seq![0x43u8, DASH, x]);
    lemma_bare_key_shape(seq![x]);
    lemma_modifier_letters();
    lemma_one_modifier(0x43, seq![x]);
    assert(seq![0x43u8, DASH] + seq![x] =~= seq![0x43u8, DASH, x]);
}

proof fn lemma_ctrl_space()
    ensures
        resolve(seq![0x43u8, DASH] + "space".spec_bytes()) == seq![0u8],
{
    reveal(resolve);
    let k = "space".spec_bytes();
    reveal_strlit("space");
    reveal_strlit("esc");
    assert(is_ascii("space") && is_ascii("esc"));
    broadcast use vstd::string::is_ascii_spec_bytes;

    assert(k =~= seq![0x73u8, 0x70, 0x61, 0x63, 0x65]);
    assert("esc".spec_bytes().len() == 3);
    assert(bare_key(k) == Some(seq![SPACE]));
    lemma_bare_key_shape(seq![0x43u8, DASH] + k);
    lemma_modifier_letters();
    lemma_one_modifier(0x43, k);
}

proof fn lemma_ctrl_bracket()
    ensures
        resolve(seq![0x43u8, DASH, OPEN_BRACKET]) == seq![ESC],
{
    reveal(resolve);
    lemma_bare_key_shape(seq![0x43u8, DASH, OPEN_BRACKET]);
    lemma_bare_key_shape(seq![OPEN_BRACKET]);
    lemma_modifier_letters();
    lemma_one_modifier(0x43, seq![OPEN_BRACKET]);
    assert(seq![0x43u8, DASH] + seq![OPEN_BRACKET] =~= seq![0x43u8, DASH, OPEN_BRACKET]);
}

/// `C-x` for a lowercase letter `x` is its control code (`C-a` is 1, `C-z`
/// is 26); `C-space` is 0 and `C-[` is ESC.
pub proof fn lemma_ctrl_codes(x: u8)
    requires
        is_lower(x),
    ensures
        resolve(seq![0x43u8, DASH, x]) == seq![(x - 0x60) as u8],
        resolve(seq![0x43u8, DASH] + "space".spec_bytes()) == seq![0u8],
        resolve(seq![0x43u8, DASH, OPEN_BRACKET]) == seq![ESC],
{
    lemma_ctrl_letter(x);
    lemma_ctrl_space();
    lemma_ctrl_bracket();
}

/// Alt before a bare key or a single byte gives ESC and then that key's own
/// bytes: `A-ret` is ESC CR and `A-space` is ESC and a space.
pub proof fn lemma_alt_prefix(k: Seq<u8>)
    requires
        bare_key(k) is Some || (k.len() == 1 && k[0] != DASH),
    ensures
        resolve(seq![0x41u8, DASH] + k) == seq![ESC] + match bare_key(k) {
            Some(b) => b,
            None => k,
        },
{
    reveal(resolve);
    let s = seq![0x41u8, DASH] + k;
    lemma_bare_key_shape(k);
    lemma_bare_key_shape(s);
    lemma_modifier_letters();
    lemma_one_modifier(0x41, k);
    assert(s[1] == DASH);
}

/// Alt (or Meta, in any spelling and with any other modifiers but Ctrl)
/// before a bare key or a single byte gives ESC and then that key's own bytes.
pub proof fn lemma_alt_prefix_any(s: Seq<u8>)
    requires
        last_dash(s) >= 0,
        has_modifier(s, Modifier::Alt),
        !has_modifier(s, Modifier::Ctrl),
        bare_key(combo_key(s)) is Some || combo_key(s).len() == 1,
    ensures
        resolve(s) == seq![ESC] + match bare_key(combo_key(s)) {
            Some(b) => b,
            None => combo_key(s),
        },
{
    reveal(resolve);
    lemma_last_dash_range(s);
    lemma_bare_key_shape(s);
}

} // verus!
