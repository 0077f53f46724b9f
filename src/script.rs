use vstd::prelude::*;

use crate::compiler::ChannelCommandSet;
use crate::parse::{
    base36_value, digit_pair, from_base36, is_base36, push_indices_from_str_to_arglist,
    pushed_values, BMSImportError,
};

verus! {

pub open spec fn is_dec_digit(c: char) -> bool {
    '0' <= c && c <= '9'
}

pub open spec fn is_alnum(c: char) -> bool {
    is_dec_digit(c) || ('A' <= c && c <= 'Z') || ('a' <= c && c <= 'z')
}

/// Value of a string of decimal digits, most significant first.
pub open spec fn dec_value(s: Seq<char>) -> nat
    decreases s.len(),
{
    if s.len() == 0 {
        0
    } else {
        dec_value(s.drop_last()) * 10 + (s.last() as nat - '0' as nat) as nat
    }
}

pub open spec fn pow10(n: nat) -> nat
    decreases n,
{
    if n == 0 {
        1
    } else {
        10 * pow10((n - 1) as nat)
    }
}

/// The statements of a chart script that carry data.
#[derive(Clone, Copy, Debug, PartialEq, Eq, Structural)]
pub enum LineKind {
    /// `#MMMCC:values`: measure `MMM`, channel `CC`, two-digit base-36 values.
    Channel,
    /// `WAVxx path`: resource `xx` (base 36) is the file `path`.
    Wav,
    /// `#TITLE name`.
    Title,
    /// `#BPM tempo`.
    Bpm,
}

pub open spec fn lit_at(s: Seq<char>, p: int, lit: Seq<char>) -> bool {
    0 <= p && p + lit.len() <= s.len() && s.subrange(p, p + lit.len()) == lit
}

/// A statement of `kind` starts at position `p` of `s`.
pub open spec fn kind_at(s: Seq<char>, p: int, kind: LineKind) -> bool {
    match kind {
        LineKind::Channel => {
            &&& 0 <= p
            &&& p + 7 <= s.len()
            &&& s[p] == '#'
            &&& forall|j: int| 1 <= j < 6 ==> is_dec_digit(#[trigger] s[p + j])
            &&& s[p + 6] == ':'
        },
        LineKind::Wav => {
            &&& lit_at(s, p, seq!['W', 'A', 'V'])
            &&& p + 6 <= s.len()
            &&& is_alnum(s[p + 3])
            &&& is_alnum(s[p + 4])
            &&& s[p + 5] == ' '
        },
        LineKind::Title => lit_at(s, p, seq!['#', 'T', 'I', 'T', 'L', 'E', ' ']),
        LineKind::Bpm => lit_at(s, p, seq!['#', 'B', 'P', 'M', ' ']),
    }
}

/// Length of the fixed head of a statement, before its trailing capture.
pub open spec fn head_len(kind: LineKind) -> int {
    match kind {
        LineKind::Channel => 7,
        LineKind::Wav => 6,
        LineKind::Title => 7,
        LineKind::Bpm => 5,
    }
}

/// The leftmost position at or after `p` where a statement of `kind` starts.
pub open spec fn first_at(s: Seq<char>, kind: LineKind, p: int) -> Option<int>
    decreases s.len() - p,
{
    if p < 0 || p >= s.len() {
        None
    } else if kind_at(s, p, kind) {
        Some(p)
    } else {
        first_at(s, kind, p + 1)
    }
}

/// A character of a trailing capture: alphanumeric, or (for a path) anything
/// but a line break.
pub open spec fn capture_char(c: char, kind: LineKind) -> bool {
    if kind == LineKind::Wav {
        c != '\n'
    } else {
        is_alnum(c)
    }
}

/// End of the longest run of capture characters from `p`.
pub open spec fn run_end(s: Seq<char>, p: int, kind: LineKind) -> int
    decreases s.len() - p,
{
    if p < 0 || p >= s.len() {
        p
    } else if capture_char(s[p], kind) {
        run_end(s, p + 1, kind)
    } else {
        p
    }
}

/// The trailing capture of a statement of `kind` that starts at `p`.
pub open spec fn capture(s: Seq<char>, kind: LineKind, p: int) -> Seq<char> {
    s.subrange(p + head_len(kind), run_end(s, p + head_len(kind), kind))
}

/// The statement a line holds: channel lines first, then resources, titles
/// and tempos, each found at its leftmost position.
pub open spec fn line_match(s: Seq<char>) -> Option<(LineKind, int)> {
    if first_at(s, LineKind::Channel, 0) is Some {
        Some((LineKind::Channel, first_at(s, LineKind::Channel, 0)->0))
    } else if first_at(s, LineKind::Wav, 0) is Some {
        Some((LineKind::Wav, first_at(s, LineKind::Wav, 0)->0))
    } else if first_at(s, LineKind::Title, 0) is Some {
        Some((LineKind::Title, first_at(s, LineKind::Title, 0)->0))
    } else if first_at(s, LineKind::Bpm, 0) is Some {
        Some((LineKind::Bpm, first_at(s, LineKind::Bpm, 0)->0))
    } else {
        None
    }
}

/// A recognised statement of a chart script.
#[derive(Debug)]
pub enum ScriptLine {
    Channel(ChannelCommandSet),
    WavResource(u32, Vec<char>),
    Title(Vec<char>),
    Bpm(Vec<char>),
}

fn is_dec_digit_exec(c: char) -> (b: bool)
    ensures
        b == is_dec_digit(c),
{
    '0' <= c && c <= '9'
}

fn lit_at_exec(s: &[char], p: usize, lit: &Vec<char>) -> (b: bool)
    ensures
        b == lit_at(s@, p as int, lit@),
{
    let n = s.len();
    if p > n || lit.len() > n - p {
        return false;
    }
    let mut i: usize = 0;
    while i < lit.len()
        invariant
            n == s@.len(),
            p + lit@.len() <= n,
            i <= lit@.len(),
            forall|j: int| 0 <= j < i ==> s@[p + j] == lit@[j],
        decreases lit.len() - i,
    {
        if s[p + i] != lit[i] {
            assert(s@.subrange(p as int, p + lit@.len())[i as int] == s@[p + i]);
            return false;
        }
        i += 1;
    }
    assert(s@.subrange(p as int, p + lit@.len()) =~= lit@);
    true
}

fn kind_at_exec(s: &[char], p: usize, kind: LineKind) -> (b: bool)
    ensures
        b == kind_at(s@, p as int, kind),
{
    match kind {
        LineKind::Channel => {
            if p > s.len() || 7 > s.len() - p {
                return false;
            }
            let b = s[p] == '#' && is_dec_digit_exec(s[p + 1]) && is_dec_digit_exec(s[p + 2])
                && is_dec_digit_exec(s[p + 3]) && is_dec_digit_exec(s[p + 4])
                && is_dec_digit_exec(s[p + 5]) && s[p + 6] == ':';
            proof {
                if b {
                    assert forall|j: int| 1 <= j < 6 implies is_dec_digit(#[trigger] s@[p + j]) by {
                        assert(j == 1 || j == 2 || j == 3 || j == 4 || j == 5);
                    }
                } else if s@[p as int] == '#' && s@[p + 6] == ':' {
                    let j: int = if !is_dec_digit(s@[p + 1]) {
                        1
                    } else if !is_dec_digit(s@[p + 2]) {
                        2
                    } else if !is_dec_digit(s@[p + 3]) {
                        3
                    } else if !is_dec_digit(s@[p + 4]) {
                        4
                    } else {
                        5
                    };
                    assert(!is_dec_digit(s@[p + j]));
                }
            }
            b
        },
        LineKind::Wav => {
            let lit = vec!['W', 'A', 'V'];
            assert(lit@ == seq!['W', 'A', 'V']);
            if !lit_at_exec(s, p, &lit) || 6 > s.len() - p {
                return false;
            }
            is_alnum_exec(s[p + 3]) && is_alnum_exec(s[p + 4]) && s[p + 5] == ' '
        },
        LineKind::Title => {
            let lit = vec!['#', 'T', 'I', 'T', 'L', 'E', ' '];
            assert(lit@ == seq!['#', 'T', 'I', 'T', 'L', 'E', ' ']);
            lit_at_exec(s, p, &lit)
        },
        LineKind::Bpm => {
            let lit = vec!['#', 'B', 'P', 'M', ' '];
            assert(lit@ == seq!['#', 'B', 'P', 'M', ' ']);
            lit_at_exec(s, p, &lit)
        },
    }
}

fn is_alnum_exec(c: char) -> (b: bool)
    ensures
        b == is_alnum(c),
{
    ('0' <= c && c <= '9') || ('A' <= c && c <= 'Z') || ('a' <= c && c <= 'z')
}

/// The leftmost start of a statement of `kind` in `s`.
fn find_first(s: &[char], kind: LineKind) -> (r: Option<usize>)
    ensures
        r is Some <==> first_at(s@, kind, 0) is Some,
        r matches Some(p) ==> first_at(s@, kind, 0) == Some(p as int) && kind_at(s@, p as int, kind)
            && p < s@.len(),
{
    let mut p: usize = 0;
    while p < s.len()
        invariant
            p <= s@.len(),
            first_at(s@, kind, 0) == first_at(s@, kind, p as int),
        decreases s.len() - p,
    {
        if kind_at_exec(s, p, kind) {
            return Some(p);
        }
        p += 1;
    }
    None
}

fn run_end_exec(s: &[char], p: usize, kind: LineKind) -> (e: usize)
    requires
        p <= s@.len(),
    ensures
        e as int == run_end(s@, p as int, kind),
        p <= e <= s@.len(),
{
    let mut i: usize = p;
    while i < s.len()
        invariant
            p <= i <= s@.len(),
            run_end(s@, p as int, kind) == run_end(s@, i as int, kind),
        decreases s.len() - i,
    {
        let c = s[i];
        let keep = if kind == LineKind::Wav {
            c != '\n'
        } else {
            is_alnum_exec(c)
        };
        if !keep {
            return i;
        }
        i += 1;
    }
    i
}

fn collect(s: &[char], a: usize, b: usize) -> (v: Vec<char>)
    requires
        a <= b <= s@.len(),
    ensures
        v@ == s@.subrange(a as int, b as int),
{
    let mut v: Vec<char> = Vec::new();
    let mut i: usize = a;
    while i < b
        invariant
            a <= i <= b <= s@.len(),
            v@ == s@.subrange(a as int, i as int),
        decreases b - i,
    {
        v.push(s[i]);
        assert(s@.subrange(a as int, i + 1) == s@.subrange(a as int, i as int).push(s@[i as int]));
        i += 1;
    }
    v
}

proof fn lemma_pow10_mono(a: nat, b: nat)
    requires
        a <= b,
    ensures
        pow10(a) <= pow10(b),
    decreases b,
{
    if a < b {
        lemma_pow10_mono(a, (b - 1) as nat);
    }
}

/// Reads the decimal digits `s[a..b]`, at most three of them.
fn dec_exec(s: &[char], a: usize, b: usize) -> (v: u32)
    requires
        a <= b <= s@.len(),
        b - a <= 3,
        forall|j: int| a <= j < b ==> is_dec_digit(#[trigger] s@[j]),
    ensures
        v as nat == dec_value(s@.subrange(a as int, b as int)),
{
    proof {
        reveal_with_fuel(pow10, 4);
        lemma_pow10_mono((b - a) as nat, 3);
    }
    let mut v: u32 = 0;
    let mut i: usize = a;
    while i < b
        invariant
            a <= i <= b <= s@.len(),
            b - a <= 3,
            pow10((b - a) as nat) <= 1000,
            forall|j: int| a <= j < b ==> is_dec_digit(#[trigger] s@[j]),
            v as nat == dec_value(s@.subrange(a as int, i as int)),
            (v as nat) < pow10((i - a) as nat),
        decreases b - i,
    {
        let c = s[i];
        assert(is_dec_digit(s@[i as int]));
        proof {
            assert(s@.subrange(a as int, i + 1).drop_last() == s@.subrange(a as int, i as int));
            assert(s@.subrange(a as int, i + 1).last() == c);
            lemma_pow10_mono((i + 1 - a) as nat, (b - a) as nat);
        }
        v = v * 10 + ((c as u32) - ('0' as u32));
        i += 1;
    }
    v
}

/// Recognises one line of a chart script. A channel line appends its values
/// to `channel_args` and refers to them by index range; a malformed value
/// pair fails with `InvalidBase36Format`, keeping the values read before it.
/// Lines that hold no statement give `None`.
pub fn parse_bmscript_line(line: &[char], channel_args: &mut Vec<u32>) -> (r: Result<
    Option<ScriptLine>,
    BMSImportError,
>)
    requires
        old(channel_args)@.len() + line@.len() <= usize::MAX,
    ensures
        line_match(line@) is None ==> (r matches Ok(None) && final(channel_args)@ == old(
            channel_args,
        )@),
        line_match(line@) matches Some((kind, p)) ==> {
            let cap = capture(line@, kind, p);
            let n0 = old(channel_args)@.len();
            let q = final(channel_args)@.len() - n0;
            match kind {
                LineKind::Channel => {
                    &&& 0 <= q <= cap.len() / 2
                    &&& final(channel_args)@ == old(channel_args)@ + pushed_values(cap, q as nat)
                    &&& (forall|k: int|
                        0 <= k < cap.len() / 2 ==> is_base36(#[trigger] digit_pair(cap, k)))
                        ==> (r matches Ok(Some(ScriptLine::Channel(set))) && set.measure
                        == dec_value(line@.subrange(p + 1, p + 4)) && set.channel == dec_value(
                        line@.subrange(p + 4, p + 6),
                    ) && set.args_idx == (n0 as usize, (n0 + cap.len() / 2) as usize) && q
                        == cap.len() / 2)
                    &&& !(forall|k: int|
                        0 <= k < cap.len() / 2 ==> is_base36(#[trigger] digit_pair(cap, k)))
                        ==> r matches Err(BMSImportError::InvalidBase36Format)
                },
                LineKind::Wav => {
                    &&& final(channel_args)@ == old(channel_args)@
                    &&& r matches Ok(Some(ScriptLine::WavResource(idx, path)))
                    &&& idx == base36_value(line@.subrange(p + 3, p + 5))
                    &&& path@ == cap
                },
                LineKind::Title => {
                    &&& final(channel_args)@ == old(channel_args)@
                    &&& r matches Ok(Some(ScriptLine::Title(t)))
                    &&& t@ == cap
                },
                LineKind::Bpm => {
                    &&& final(channel_args)@ == old(channel_args)@
                    &&& r matches Ok(Some(ScriptLine::Bpm(t)))
                    &&& t@ == cap
                },
            }
        },
{
    match find_first(line, LineKind::Channel) {
        Some(p) => {
            let h = p + 7;
            let e = run_end_exec(line, h, LineKind::Channel);
            let indices = collect(line, h, e);
            proof {
                assert(forall|j: int| 1 <= j < 6 ==> is_dec_digit(#[trigger] line@[p + j]));
                assert forall|j: int| p + 1 <= j < p + 6 implies is_dec_digit(#[trigger] line@[j]) by {
                    assert(line@[p + (j - p)] == line@[j]);
                }
            }
            let measure = dec_exec(line, p + 1, p + 4);
            let channel = dec_exec(line, p + 4, p + 6);
            let args_beg = channel_args.len();
            let mut args_cnt: usize = 0;
            match push_indices_from_str_to_arglist(indices.as_slice(), channel_args, &mut args_cnt) {
                Ok(()) => Ok(
                    Some(
                        ScriptLine::Channel(
                            ChannelCommandSet {
                                measure,
                                channel,
                                args_idx: (args_beg, args_beg + args_cnt),
                            },
                        ),
                    ),
                ),
                Err(e) => Err(e),
            }
        },
        None => {
            match find_first(line, LineKind::Wav) {
                Some(p) => {
                    let idx_chars = collect(line, p + 3, p + 5);
                    assert(idx_chars@[0] == line@[p + 3]);
                    assert(idx_chars@[1] == line@[p + 4]);
                    match from_base36(idx_chars.as_slice()) {
                        Ok(idx) => {
                            let e = run_end_exec(line, p + 6, LineKind::Wav);
                            Ok(Some(ScriptLine::WavResource(idx, collect(line, p + 6, e))))
                        },
                        Err(()) => Err(BMSImportError::NumericFormatError),
                    }
                },
                None => {
                    match find_first(line, LineKind::Title) {
                        Some(p) => {
                            let e = run_end_exec(line, p + 7, LineKind::Title);
                            Ok(Some(ScriptLine::Title(collect(line, p + 7, e))))
                        },
                        None => {
                            match find_first(line, LineKind::Bpm) {
                                Some(p) => {
                                    let e = run_end_exec(line, p + 5, LineKind::Bpm);
                                    Ok(Some(ScriptLine::Bpm(collect(line, p + 5, e))))
                                },
                                None => Ok(None),
                            }
                        },
                    }
                },
            }
        },
    }
}

} // verus!
