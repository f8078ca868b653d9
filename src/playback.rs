//! Playback pacing: which bytes go out as one keystroke, how long to wait
//! after each, and the order in which a script's commands take effect.
use vstd::prelude::*;
use vstd::slice::*;
use vstd::utf8::*;

use rand::Rng;

use crate::keys::{ESC, OPEN_BRACKET};
use crate::script::{views, Command, CommandView, Decimal, Script};

verus! {

pub const SS3: u8 = 0x4f;

pub const SEMICOLON: u8 = 0x3b;

pub open spec fn is_csi_param(b: u8) -> bool {
    (0x30 <= b <= 0x39) || b == SEMICOLON
}

/// Number of leading digits and `;` of `s`.
pub open spec fn param_count(s: Seq<u8>) -> nat
    decreases s.len(),
{
    if s.len() > 0 && is_csi_param(s[0]) {
        1 + param_count(s.drop_first())
    } else {
        0
    }
}

/// Length of the escape sequence at the start of `b`: `ESC [` with its
/// parameters and final byte, `ESC O` and one byte, or `ESC` and one byte.
pub open spec fn escape_len(b: Seq<u8>) -> int {
    if b.len() <= 1 || b[0] != ESC {
        1
    } else if b[1] == OPEN_BRACKET {
        let i = 2 + param_count(b.subrange(2, b.len() as int)) as int;
        if i < b.len() {
            i + 1
        } else {
            b.len() as int
        }
    } else if b[1] == SS3 {
        if b.len() > 2 {
            3
        } else {
            b.len() as int
        }
    } else {
        2
    }
}

/// Width of the UTF-8 character that begins with `lead`.
pub open spec fn char_width(lead: u8) -> int {
    if lead >= 0xf0 {
        4
    } else if lead >= 0xe0 {
        3
    } else if lead >= 0xc0 {
        2
    } else {
        1
    }
}

/// Length of the keystroke at the start of non-empty `b`: a whole escape
/// sequence, or one character. Where the last byte of an escape sequence
/// begins a multi-byte character, the keystroke runs to the end of it.
pub open spec fn unit_len(b: Seq<u8>) -> int {
    if b[0] == ESC {
        let e = escape_len(b);
        let w = if 2 <= e <= b.len() { char_width(b[e - 1]) } else { 1 };
        if e - 1 + w <= b.len() {
            e - 1 + w
        } else {
            b.len() as int
        }
    } else if char_width(b[0]) <= b.len() {
        char_width(b[0])
    } else {
        b.len() as int
    }
}

/// The keystrokes of `b`, in order: each is sent in one write.
pub open spec fn units(b: Seq<u8>) -> Seq<Seq<u8>>
    decreases b.len(),
{
    if b.len() == 0 {
        Seq::empty()
    } else {
        let k = unit_len(b);
        if 1 <= k <= b.len() {
            seq![b.subrange(0, k)] + units(b.subrange(k, b.len() as int))
        } else {
            seq![b]
        }
    }
}

proof fn lemma_param_count(s: Seq<u8>, k: int)
    requires
        0 <= k <= s.len(),
        forall|i: int| 0 <= i < k ==> is_csi_param(s[i]),
        k == s.len() || !is_csi_param(s[k]),
    ensures
        param_count(s) == k,
    decreases k,
{
    if k > 0 {
        let t = s.drop_first();
        assert forall|i: int| 0 <= i < k - 1 implies is_csi_param(t[i]) by {
            assert(t[i] == s[i + 1]);
        }
        if k < s.len() {
            assert(t[k - 1] == s[k]);
        }
        lemma_param_count(t, k - 1);
    }
}

/// The length of the escape sequence at the start of `bytes`.
pub fn escape_sequence_length(bytes: &[u8]) -> (r: usize)
    ensures
        r == escape_len(bytes@),
        bytes@.len() > 0 ==> 1 <= r <= bytes@.len(),
{
    let n = bytes.len();
    if n <= 1 || bytes[0] != ESC {
        return 1;
    }
    if bytes[1] == OPEN_BRACKET {
        let mut i: usize = 2;
        while i < n && ((0x30 <= bytes[i] && bytes[i] <= 0x39) || bytes[i] == SEMICOLON)
            invariant
                n == bytes@.len(),
                2 <= i <= n,
                forall|k: int| 2 <= k < i ==> is_csi_param(bytes@[k]),
            decreases n - i,
        {
            i = i + 1;
        }
        let ghost t = bytes@.subrange(2, n as int);
        assert forall|k: int| 0 <= k < i - 2 implies is_csi_param(t[k]) by {
            assert(t[k] == bytes@[k + 2]);
        }
        if i < n {
            assert(t[i - 2] == bytes@[i as int]);
        }
        proof {
            lemma_param_count(t, i - 2);
        }
        if i < n {
            i + 1
        } else {
            n
        }
    } else if bytes[1] == SS3 {
        if n > 2 {
            3
        } else {
            n
        }
    } else {
        2
    }
}

/// The length of the keystroke at the start of non-empty `bytes`.
pub fn unit_length(bytes: &[u8]) -> (r: usize)
    requires
        bytes@.len() > 0,
    ensures
        r == unit_len(bytes@),
        1 <= r <= bytes@.len(),
{
    if bytes[0] == ESC {
        let e = escape_sequence_length(bytes);
        let w: usize = if e < 2 {
            1
        } else if bytes[e - 1] >= 0xf0 {
            4
        } else if bytes[e - 1] >= 0xe0 {
            3
        } else if bytes[e - 1] >= 0xc0 {
            2
        } else {
            1
        };
        if w <= bytes.len() - (e - 1) {
            e - 1 + w
        } else {
            bytes.len()
        }
    } else {
        let w: usize = if bytes[0] >= 0xf0 {
            4
        } else if bytes[0] >= 0xe0 {
            3
        } else if bytes[0] >= 0xc0 {
            2
        } else {
            1
        };
        if w <= bytes.len() {
            w
        } else {
            bytes.len()
        }
    }
}

/// Relies on rand's thread_rng and Rng::gen_range over an inclusive range,
/// which returns a value inside that range.
#[verifier::external_body]
fn random_between(lo: u128, hi: u128) -> (r: u128)
    requires
        lo <= hi,
    ensures
        lo <= r <= hi,
{
    rand::thread_rng().gen_range(lo..=hi)
}

/// Timing of playback: seconds between keystrokes, and the spread around
/// that as a fraction of it.
#[derive(Clone, Copy, Debug)]
pub struct PlaybackConfig {
    pub speed: Decimal,
    pub jitter: Decimal,
}

impl Default for PlaybackConfig {
    fn default() -> (r: Self)
        ensures
            r.speed.billionths == 100_000_000,
            r.jitter.billionths == 0,
    {
        PlaybackConfig {
            speed: Decimal { billionths: 100_000_000 },
            jitter: Decimal { billionths: 0 },
        }
    }
}

/// Nanoseconds of spread on either side of the delay between keystrokes:
/// `speed` (billionths of a second, that is nanoseconds) times `jitter`
/// (billionths), rounded down.
pub open spec fn jitter_ns(speed: u64, jitter: u64) -> int {
    speed as int * jitter as int / 1_000_000_000
}

/// The delay for a drawn `offset` in `[0, 2 * jitter_ns]`: the speed moved by
/// `offset - jitter_ns`, held within `[0, u64::MAX]`.
pub open spec fn shifted_delay(speed: u64, jitter: u64, offset: int) -> int {
    let d = speed + offset - jitter_ns(speed, jitter);
    if d < 0 {
        0
    } else if d > u64::MAX {
        u64::MAX as int
    } else {
        d
    }
}

/// Whether `d` nanoseconds is a delay that the timing allows: the speed
/// itself where the spread is zero, else at most the spread away from it
/// (and never below zero).
pub open spec fn delay_within(speed: u64, jitter: u64, d: int) -> bool {
    let j = jitter_ns(speed, jitter);
    if j == 0 {
        d == speed
    } else {
        (speed - j <= 0 || speed - j <= d) && 0 <= d <= speed + j && d <= u64::MAX
    }
}

proof fn lemma_spread_fits(speed: u64, jitter: u64)
    ensures
        0 <= speed as int * jitter as int <= 18_446_744_073_709_551_615 * 18_446_744_073_709_551_615,
        0 <= jitter_ns(speed, jitter) <= 18_446_744_073_709_551_615 * 18_446_744_073_709_551_615,
{
    assert(0 <= speed as int * jitter as int <= 18_446_744_073_709_551_615
        * 18_446_744_073_709_551_615) by (nonlinear_arith)
        requires
            speed <= 18_446_744_073_709_551_615,
            jitter <= 18_446_744_073_709_551_615,
    ;
}

/// The delay that follows a keystroke for a given draw.
pub fn delay_for_offset(config: &PlaybackConfig, offset: u128) -> (r: u64)
    requires
        offset <= 2 * jitter_ns(config.speed.billionths, config.jitter.billionths),
    ensures
        r == shifted_delay(config.speed.billionths, config.jitter.billionths, offset as int),
{
    proof {
        lemma_spread_fits(config.speed.billionths, config.jitter.billionths);
    }
    let speed = config.speed.billionths as u128;
    let spread = speed * (config.jitter.billionths as u128) / 1_000_000_000;
    let up = speed + offset;
    if up < spread {
        0
    } else if up - spread > u64::MAX as u128 {
        u64::MAX
    } else {
        (up - spread) as u64
    }
}

/// Draws the delay that follows a keystroke: the base delay where there is
/// no spread, else a value within the spread on either side of it.
pub fn calculate_delay(config: &PlaybackConfig) -> (r: u64)
    ensures
        delay_within(config.speed.billionths, config.jitter.billionths, r as int),
{
    proof {
        lemma_spread_fits(config.speed.billionths, config.jitter.billionths);
    }
    let speed = config.speed.billionths as u128;
    let spread = speed * (config.jitter.billionths as u128) / 1_000_000_000;
    if spread == 0 {
        return config.speed.billionths;
    }
    let offset = random_between(0, spread * 2);
    delay_for_offset(config, offset)
}

/// What the player does next.
pub enum Action {
    /// Write `keys` in one write, then wait `delay_ns` nanoseconds.
    Send { keys: Vec<u8>, delay_ns: u64 },
    /// Wait `nanos` nanoseconds. A wait is not cut short: cancellation is
    /// seen at the next call.
    Pause { nanos: u64 },
    /// Playback is over.
    Finish,
}

/// The next step of playback from command `i`, with `off` bytes of it typed,
/// under the timing `speed` and `jitter`. Timing commands take effect as they
/// are passed; shell and size commands have no effect here.
pub enum StepView {
    Finish { speed: u64, jitter: u64 },
    Pause { nanos: u64, next: int, speed: u64, jitter: u64 },
    Keys { keys: Seq<u8>, next: int, offset: int, speed: u64, jitter: u64 },
}

pub open spec fn next_step(cmds: Seq<CommandView>, i: int, off: int, speed: u64, jitter: u64) -> StepView
    decreases cmds.len() - i,
{
    if i < 0 || i >= cmds.len() {
        StepView::Finish { speed, jitter }
    } else {
        match cmds[i] {
            CommandView::SetSpeed(v) => next_step(cmds, i + 1, 0, v, jitter),
            CommandView::SetJitter(v) => next_step(cmds, i + 1, 0, speed, v),
            CommandView::Wait(d) => StepView::Pause { nanos: d, next: i + 1, speed, jitter },
            CommandView::Type(t) => if 0 <= off < t.len() {
                let k = unit_len(t.subrange(off, t.len() as int));
                StepView::Keys {
                    keys: t.subrange(off, off + k),
                    next: i,
                    offset: off + k,
                    speed,
                    jitter,
                }
            } else {
                next_step(cmds, i + 1, 0, speed, jitter)
            },
            _ => next_step(cmds, i + 1, 0, speed, jitter),
        }
    }
}

/// Plays a script one step at a time: the caller performs each action and
/// reports whether playback is still wanted before the next.
pub struct PlaybackEngine {
    pub config: PlaybackConfig,
    pub commands: Vec<Command>,
    /// Index of the command in progress.
    pub next: usize,
    /// Bytes of that command already typed.
    pub offset: usize,
    /// Set once playback is over or was cancelled; never cleared.
    pub stopped: bool,
}

impl PlaybackEngine {
    pub fn new(script: Script) -> (r: Self)
        ensures
            r.commands@ == script.commands@,
            r.next == 0,
            r.offset == 0,
            !r.stopped,
            r.config.speed.billionths == 100_000_000,
            r.config.jitter.billionths == 0,
    {
        PlaybackEngine {
            config: PlaybackConfig::default(),
            commands: script.commands,
            next: 0,
            offset: 0,
            stopped: false,
        }
    }

    /// The next action. Where `running` is false, or playback already
    /// stopped, nothing more is done.
    pub fn next_action(&mut self, running: bool) -> (r: Action)
        ensures
            final(self).commands@ == old(self).commands@,
            !running || old(self).stopped ==> {
                &&& r is Finish
                &&& final(self).stopped
                &&& final(self).config == old(self).config
            },
            running && !old(self).stopped ==> match next_step(
                views(old(self).commands@),
                old(self).next as int,
                old(self).offset as int,
                old(self).config.speed.billionths,
                old(self).config.jitter.billionths,
            ) {
                StepView::Finish { speed, jitter } => {
                    &&& r is Finish
                    &&& final(self).stopped
                    &&& final(self).config.speed.billionths == speed
                    &&& final(self).config.jitter.billionths == jitter
                },
                StepView::Pause { nanos, next, speed, jitter } => {
                    &&& r == (Action::Pause { nanos })
                    &&& !final(self).stopped
                    &&& final(self).next == next
                    &&& final(self).offset == 0
                    &&& final(self).config.speed.billionths == speed
                    &&& final(self).config.jitter.billionths == jitter
                },
                StepView::Keys { keys, next, offset, speed, jitter } => {
                    &&& match r {
                        Action::Send { keys: k, delay_ns } => k@ == keys && delay_within(
                            speed,
                            jitter,
                            delay_ns as int,
                        ),
                        _ => false,
                    }
                    &&& !final(self).stopped
                    &&& final(self).next == next
                    &&& final(self).offset == offset
                    &&& final(self).config.speed.billionths == speed
                    &&& final(self).config.jitter.billionths == jitter
                },
            },
    {
        if !running || self.stopped {
            self.stopped = true;
            return Action::Finish;
        }
        let ghost cmds = views(self.commands@);
        let ghost goal = next_step(
            cmds,
            self.next as int,
            self.offset as int,
            self.config.speed.billionths,
            self.config.jitter.billionths,
        );
        while self.next < self.commands.len()
            invariant
                self.commands@ == old(self).commands@,
                cmds == views(self.commands@),
                running,
                !old(self).stopped,
                !self.stopped,
                goal == next_step(
                    views(old(self).commands@),
                    old(self).next as int,
                    old(self).offset as int,
                    old(self).config.speed.billionths,
                    old(self).config.jitter.billionths,
                ),
                goal == next_step(
                    cmds,
                    self.next as int,
                    self.offset as int,
                    self.config.speed.billionths,
                    self.config.jitter.billionths,
                ),
            decreases self.commands@.len() - self.next,
        {
            let i = self.next;
            assert(cmds[i as int] == self.commands@[i as int]@);
            match &self.commands[i] {
                Command::SetSpeed(d) => {
                    self.config.speed = *d;
                },
                Command::SetJitter(d) => {
                    self.config.jitter = *d;
                },
                Command::Wait(d) => {
                    let nanos = d.billionths;
                    self.next = i + 1;
                    self.offset = 0;
                    return Action::Pause { nanos };
                },
                Command::Type(t) => {
                    if self.offset < t.len() {
                        let rest = slice_subrange(t.as_slice(), self.offset, t.len());
                        let k = unit_length(rest);
                        let keys = slice_to_vec(slice_subrange(rest, 0, k));
                        assert(keys@ =~= t@.subrange(self.offset as int, self.offset + k));
                        self.offset = self.offset + k;
                        let delay_ns = calculate_delay(&self.config);
                        return Action::Send { keys, delay_ns };
                    }
                },
                _ => {},
            }
            self.next = i + 1;
            self.offset = 0;
        }
        self.stopped = true;
        Action::Finish
    }
}

proof fn lemma_csi_len(params: Seq<u8>, fin: u8, rest: Seq<u8>)
    requires
        forall|i: int| 0 <= i < params.len() ==> is_csi_param(params[i]),
        !is_csi_param(fin),
        fin < 0x80,
    ensures
        unit_len(seq![ESC, OPEN_BRACKET] + params + seq![fin] + rest) == params.len() + 3,
{
    let b = seq![ESC, OPEN_BRACKET] + params + seq![fin] + rest;
    let t = b.subrange(2, b.len() as int);
    assert(t =~= params + seq![fin] + rest);
    assert(t[params.len() as int] == fin);
    lemma_param_count(t, params.len() as int);
}

/// A CSI sequence (ESC, `[`, digits and `;`, then an ASCII final byte) at the start
/// of typed bytes is one keystroke, whatever follows it.
pub proof fn lemma_csi_one_unit(params: Seq<u8>, fin: u8, rest: Seq<u8>)
    requires
        forall|i: int| 0 <= i < params.len() ==> is_csi_param(params[i]),
        !is_csi_param(fin),
        fin < 0x80,
    ensures
        units(seq![ESC, OPEN_BRACKET] + params + seq![fin] + rest)[0] == seq![ESC, OPEN_BRACKET]
            + params + seq![fin],
{
    let b = seq![ESC, OPEN_BRACKET] + params + seq![fin] + rest;
    lemma_csi_len(params, fin, rest);
    assert(b.subrange(0, params.len() + 3int) =~= seq![ESC, OPEN_BRACKET] + params + seq![fin]);
}

/// Where the bytes still to type in a command begin with a CSI sequence, the
/// next step sends that whole sequence in one write, followed by one delay.
pub proof fn lemma_csi_one_send(
    cmds: Seq<CommandView>,
    i: int,
    off: int,
    speed: u64,
    jitter: u64,
    params: Seq<u8>,
    fin: u8,
    rest: Seq<u8>,
)
    requires
        0 <= i < cmds.len(),
        cmds[i] is Type,
        0 <= off <= cmds[i]->Type_0.len(),
        cmds[i]->Type_0.subrange(off, cmds[i]->Type_0.len() as int) == seq![ESC, OPEN_BRACKET]
            + params + seq![fin] + rest,
        forall|k: int| 0 <= k < params.len() ==> is_csi_param(params[k]),
        !is_csi_param(fin),
        fin < 0x80,
    ensures
        next_step(cmds, i, off, speed, jitter) == (StepView::Keys {
            keys: seq![ESC, OPEN_BRACKET] + params + seq![fin],
            next: i,
            offset: off + params.len() + 3,
            speed,
            jitter,
        }),
{
    let t = cmds[i]->Type_0;
    let b = seq![ESC, OPEN_BRACKET] + params + seq![fin] + rest;
    lemma_csi_len(params, fin, rest);
    assert(t.subrange(off, off + params.len() + 3) =~= b.subrange(0, params.len() + 3int));
    assert(b.subrange(0, params.len() + 3int) =~= seq![ESC, OPEN_BRACKET] + params + seq![fin]);
}

/// Every delay that the timing allows lies within the spread of the speed:
/// between speed × (1 − jitter) and speed × (1 + jitter), and never below
/// zero. With `d` in nanoseconds and speed and jitter in billionths, both
/// sides are scaled by 10^9.
pub proof fn lemma_delay_bounds(speed: u64, jitter: u64, d: int)
    requires
        delay_within(speed, jitter, d),
    ensures
        0 <= d,
        d * 1_000_000_000 <= speed * (1_000_000_000 + jitter),
        d * 1_000_000_000 >= speed * (1_000_000_000 - jitter),
{
    let j = jitter_ns(speed, jitter);
    assert(j * 1_000_000_000 <= speed * jitter) by (nonlinear_arith)
        requires
            j == speed as int * jitter as int / 1_000_000_000,
            speed >= 0,
            jitter >= 0,
    ;
    assert(j >= 0) by (nonlinear_arith)
        requires
            j == speed as int * jitter as int / 1_000_000_000,
            speed >= 0,
            jitter >= 0,
    ;
    assert(d * 1_000_000_000 <= speed * (1_000_000_000 + jitter)) by (nonlinear_arith)
        requires
            d <= speed + j,
            j * 1_000_000_000 <= speed * jitter,
    ;
    if j == 0 {
        assert(d * 1_000_000_000 >= speed * (1_000_000_000 - jitter)) by (nonlinear_arith)
            requires
                d == speed,
                jitter >= 0,
                speed >= 0,
        ;
    } else if speed - j <= 0 {
        assert(d * 1_000_000_000 >= speed * (1_000_000_000 - jitter)) by (nonlinear_arith)
            requires
                d >= 0,
                speed <= j,
                j * 1_000_000_000 <= speed * jitter,
                speed >= 0,
        ;
    } else {
        assert(d * 1_000_000_000 >= speed * (1_000_000_000 - jitter)) by (nonlinear_arith)
            requires
                d >= speed - j,
                j * 1_000_000_000 <= speed * jitter,
        ;
    }
}

proof fn lemma_param_prefix(s: Seq<u8>)
    ensures
        param_count(s) <= s.len(),
        forall|k: int| 0 <= k < param_count(s) ==> is_csi_param(#[trigger] s[k]),
    decreases s.len(),
{
    if s.len() > 0 && is_csi_param(s[0]) {
        let t = s.drop_first();
        lemma_param_prefix(t);
        assert forall|k: int| 0 <= k < param_count(s) implies is_csi_param(#[trigger] s[k]) by {
            if k > 0 {
                assert(s[k] == t[k - 1]);
            }
        }
    }
}

/// The character that starts at boundary `p` of UTF-8 text `t` is
/// `char_width(t[p])` bytes long, and another boundary follows it.
proof fn lemma_next_boundary(t: Seq<u8>, p: int)
    requires
        valid_utf8(t),
        is_char_boundary(t, p),
        0 <= p < t.len(),
    ensures
        p + char_width(t[p]) <= t.len(),
        is_char_boundary(t, p + char_width(t[p])),
{
    valid_utf8_split(t, p);
    let u = t.subrange(p, t.len() as int);
    assert(valid_utf8(u));
    assert(u[0] == t[p]);
    is_char_boundary_iff_not_is_continuation_byte(t, p);
    let w = length_of_first_scalar(u);
    assert(w == char_width(t[p]));
    let v = pop_first_scalar(u);
    assert(valid_utf8(v));
    if p + w < t.len() {
        assert(v[0] == t[p + w]);
        assert(valid_first_scalar(v));
        is_char_boundary_iff_not_is_continuation_byte(t, p + w);
    } else {
        is_char_boundary_start_end_of_seq(t);
    }
}

proof fn lemma_ascii_run(t: Seq<u8>, p: int, n: int)
    requires
        valid_utf8(t),
        is_char_boundary(t, p),
        0 <= p,
        0 <= n,
        p + n <= t.len(),
        forall|k: int| p <= k < p + n ==> t[k] < 0x80,
    ensures
        is_char_boundary(t, p + n),
    decreases n,
{
    if n > 0 {
        lemma_next_boundary(t, p);
        lemma_ascii_run(t, p + 1, n - 1);
    }
}

/// In UTF-8 text, a keystroke that starts on a character boundary ends on
/// one: no character is split between two writes.
pub proof fn lemma_unit_on_boundary(t: Seq<u8>, off: int)
    requires
        valid_utf8(t),
        is_char_boundary(t, off),
        0 <= off < t.len(),
    ensures
        is_char_boundary(t, off + unit_len(t.subrange(off, t.len() as int))),
{
    let b = t.subrange(off, t.len() as int);
    assert(b[0] == t[off]);
    if b[0] == ESC {
        let e = escape_len(b);
        let rest = b.subrange(2, b.len() as int);
        lemma_param_prefix(rest);
        assert(1 <= e <= b.len());
        assert forall|k: int| off <= k < off + e - 1 implies t[k] < 0x80 by {
            assert(t[k] == b[k - off]);
            if b.len() >= 2 && b[1] == OPEN_BRACKET && k - off >= 2 {
                assert(b[k - off] == rest[k - off - 2]);
                assert(is_csi_param(rest[k - off - 2]));
            }
        }
        lemma_ascii_run(t, off, e - 1);
        let q = off + e - 1;
        lemma_next_boundary(t, q);
        assert(t[q] == b[e - 1]);
    } else {
        lemma_next_boundary(t, off);
    }
}

/// Playback of UTF-8 text sends whole characters: from a character boundary
/// of a type command's text, the next keystroke ends on a boundary too.
pub proof fn lemma_keys_on_boundaries(
    cmds: Seq<CommandView>,
    i: int,
    off: int,
    speed: u64,
    jitter: u64,
)
    requires
        0 <= i < cmds.len(),
        cmds[i] is Type,
        valid_utf8(cmds[i]->Type_0),
        is_char_boundary(cmds[i]->Type_0, off),
        0 <= off < cmds[i]->Type_0.len(),
    ensures
        match next_step(cmds, i, off, speed, jitter) {
            StepView::Keys { offset, .. } => is_char_boundary(cmds[i]->Type_0, offset),
            _ => false,
        },
{
    lemma_unit_on_boundary(cmds[i]->Type_0, off);
}

} // verus!
