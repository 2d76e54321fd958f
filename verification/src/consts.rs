//! Audio constants, the vocoder variant rules and the configuration rules.
use vstd::prelude::*;
use ini::Ini;

verus! {

/// Sample rate of all audio, in hertz.
pub const SAMPLE_RATE: u32 = 44100;
/// Length of one analysis window, in samples.
pub const FFT_SIZE: usize = 2048;
/// Hop between frames of the stored features, in samples.
pub const ORIGIN_HOP_SIZE: usize = 128;

/// The characters of `s`, in order.
pub fn chars_of(s: &str) -> (r: Vec<char>)
    ensures
        r@ == s@,
{
    let mut v: Vec<char> = Vec::new();
    for c in it: s.chars()
        invariant
            v@ == it.seq().subrange(0, it.index() as int),
    {
        v.push(c);
    }
    v
}

/// `c` with ASCII upper-case letters mapped to lower case.
pub open spec fn ascii_lower(c: char) -> char {
    if 'A' <= c && c <= 'Z' { ((c as u32) + 32) as char } else { c }
}

/// `p` occurs in `s` at position `i` when ASCII letter case is ignored.
pub open spec fn matches_at(s: Seq<char>, p: Seq<char>, i: int) -> bool {
    0 <= i && i + p.len() <= s.len() && (forall|j: int| 0 <= j < p.len() ==> #[trigger] ascii_lower(s[i + j]) == p[j])
}

/// `p` occurs in `s` when ASCII letter case is ignored (`p` is lower case).
pub open spec fn contains_ci(s: Seq<char>, p: Seq<char>) -> bool {
    exists|i: int| #[trigger] matches_at(s, p, i)
}

/// A vocoder model file named `name` is of the v3x kind unless its name
/// mentions "v3" without going on to "v3x" (ASCII letter case ignored).
pub open spec fn names_v3x(name: Seq<char>) -> bool {
    contains_ci(name, seq!['v', '3', 'x']) || !contains_ci(name, seq!['v', '3'])
}

fn matches_ci_at(s: &Vec<char>, i: usize, p: &Vec<char>) -> (r: bool)
    requires
        i + p@.len() <= s@.len(),
        forall|j: int| 0 <= j < p@.len() ==> 'a' <= #[trigger] p@[j] <= 'z' || '0' <= p@[j] <= '9',
    ensures
        r == (forall|j: int| 0 <= j < p@.len() ==> #[trigger] ascii_lower(s@[i + j]) == p@[j]),
{
    let sl: usize = s.len();
    let mut j: usize = 0;
    while j < p.len()
        invariant
            sl == s@.len(),
            j <= p@.len(),
            i + p@.len() <= s@.len(),
            forall|t: int| 0 <= t < p@.len() ==> 'a' <= #[trigger] p@[t] <= 'z' || '0' <= p@[t] <= '9',
            forall|t: int| 0 <= t < j ==> #[trigger] ascii_lower(s@[i + t]) == p@[t],
        decreases p.len() - j,
    {
        let c: char = s[i + j];
        let q: char = p[j];
        let same: bool = if 'A' <= c && c <= 'Z' { (c as u32) + 32 == q as u32 } else { c == q };
        if !same {
            assert(ascii_lower(s@[i + j]) != p@[j as int]);
            return false;
        }
        j = j + 1;
    }
    true
}

fn contains_ci_exec(s: &Vec<char>, p: &Vec<char>) -> (r: bool)
    requires
        forall|j: int| 0 <= j < p@.len() ==> 'a' <= #[trigger] p@[j] <= 'z' || '0' <= p@[j] <= '9',
    ensures
        r == contains_ci(s@, p@),
{
    if p.len() > s.len() {
        return false;
    }
    let last: usize = s.len() - p.len();
    let mut i: usize = 0;
    while i <= last
        invariant
            p@.len() <= s@.len(),
            last == s@.len() - p@.len(),
            forall|j: int| 0 <= j < p@.len() ==> 'a' <= #[trigger] p@[j] <= 'z' || '0' <= p@[j] <= '9',
            forall|k: int| 0 <= k < i ==> !#[trigger] matches_at(s@, p@, k),
        decreases s.len() - i,
    {
        if matches_ci_at(s, i, p) {
            assert(matches_at(s@, p@, i as int));
            return true;
        }
        i = i + 1;
    }
    assert forall|k: int| !#[trigger] matches_at(s@, p@, k) by {
        if 0 <= k && k + p@.len() <= s@.len() {
            assert(k < i);
        }
    }
    false
}

/// Whether a vocoder model file named `name` is of the v3x kind (see [`names_v3x`]).
pub fn is_v3x_model(name: &str) -> (r: bool)
    ensures
        r == names_v3x(name@),
{
    let s: Vec<char> = chars_of(name);
    let v3x: Vec<char> = vec!['v', '3', 'x'];
    let v3: Vec<char> = vec!['v', '3'];
    assert(v3x@ =~= seq!['v', '3', 'x']);
    assert(v3@ =~= seq!['v', '3']);
    contains_ci_exec(&s, &v3x) || !contains_ci_exec(&s, &v3)
}

/// Samples between vocoder frames: 512 for the v3x models, 256 otherwise.
pub fn hop_size(is_v3x: bool) -> (r: usize)
    ensures
        r == if is_v3x { 512usize } else { 256usize },
{
    if is_v3x { 512 } else { 256 }
}

/// Time step of the vocoder's frame clock, in samples: the hop for the v3x
/// models, half the hop otherwise.
pub fn thop_samples(is_v3x: bool) -> (r: usize)
    ensures
        r == if is_v3x { hop_size_spec(is_v3x) } else { hop_size_spec(is_v3x) / 2 },
{
    let h: usize = hop_size(is_v3x);
    if is_v3x { h } else { h / 2 }
}

/// Samples between vocoder frames.
pub open spec fn hop_size_spec(is_v3x: bool) -> int {
    if is_v3x { 512 } else { 256 }
}

/// Reading of a setting as a boolean: exactly "true" or "false".
pub open spec fn bool_text(s: Seq<char>) -> Option<bool> {
    if s == seq!['t', 'r', 'u', 'e'] {
        Some(true)
    } else if s == seq!['f', 'a', 'l', 's', 'e'] {
        Some(false)
    } else {
        None
    }
}

/// Whether `c` is an ASCII decimal digit.
pub open spec fn is_digit(c: char) -> bool {
    '0' <= c && c <= '9'
}

/// Value of a string of decimal digits.
pub open spec fn decimal(ds: Seq<char>) -> nat
    decreases ds.len(),
{
    if ds.len() == 0 {
        0
    } else {
        decimal(ds.subrange(0, ds.len() - 1)) * 10 + ((ds[ds.len() - 1] as u32) - ('0' as u32)) as nat
    }
}

/// `s` without a leading '+'.
pub open spec fn unsigned_digits(s: Seq<char>) -> Seq<char> {
    if s.len() > 0 && s[0] == '+' { s.subrange(1, s.len() as int) } else { s }
}

/// Every character of `ds` is a decimal digit.
pub open spec fn all_digits(ds: Seq<char>) -> bool {
    forall|i: int| 0 <= i < ds.len() ==> #[trigger] is_digit(ds[i])
}

/// Reading of a setting as a count: an optional '+' followed by one or more
/// decimal digits whose value fits in a `usize`.
pub open spec fn count_text(s: Seq<char>) -> Option<nat> {
    let ds = unsigned_digits(s);
    if ds.len() > 0 && all_digits(ds) && decimal(ds) <= usize::MAX {
        Some(decimal(ds))
    } else {
        None
    }
}

/// Reads a setting as a boolean (see [`bool_text`]).
pub fn parse_bool_text(s: &str) -> (r: Option<bool>)
    ensures
        r == bool_text(s@),
{
    let cs: Vec<char> = chars_of(s);
    let t: Vec<char> = vec!['t', 'r', 'u', 'e'];
    let f: Vec<char> = vec!['f', 'a', 'l', 's', 'e'];
    assert(t@ =~= seq!['t', 'r', 'u', 'e']);
    assert(f@ =~= seq!['f', 'a', 'l', 's', 'e']);
    if chars_eq(&cs, &t) {
        Some(true)
    } else if chars_eq(&cs, &f) {
        Some(false)
    } else {
        None
    }
}

fn chars_eq(a: &Vec<char>, b: &Vec<char>) -> (r: bool)
    ensures
        r == (a@ == b@),
{
    if a.len() != b.len() {
        return false;
    }
    let mut i: usize = 0;
    while i < a.len()
        invariant
            a@.len() == b@.len(),
            i <= a@.len(),
            forall|j: int| 0 <= j < i ==> a@[j] == b@[j],
        decreases a.len() - i,
    {
        if a[i] != b[i] {
            return false;
        }
        i = i + 1;
    }
    assert(a@ =~= b@);
    true
}

/// Reads a setting as a count (see [`count_text`]).
pub fn parse_count_text(s: &str) -> (r: Option<usize>)
    ensures
        match count_text(s@) {
            Some(v) => r == Some(v as usize),
            None => r is None,
        },
{
    let cs: Vec<char> = chars_of(s);
    let start: usize = if cs.len() > 0 && cs[0] == '+' { 1 } else { 0 };
    let ghost ds = unsigned_digits(s@);
    assert(ds =~= cs@.subrange(start as int, cs@.len() as int));
    if start >= cs.len() {
        return None;
    }
    let mut value: usize = 0;
    let mut i: usize = start;
    let mut overflow: bool = false;
    while i < cs.len()
        invariant
            start <= i <= cs@.len(),
            cs@ == s@,
            ds == unsigned_digits(s@),
            ds == cs@.subrange(start as int, cs@.len() as int),
            forall|j: int| start <= j < i ==> #[trigger] is_digit(cs@[j]),
            !overflow ==> value == decimal(cs@.subrange(start as int, i as int)),
            overflow ==> decimal(cs@.subrange(start as int, i as int)) > usize::MAX,
        decreases cs.len() - i,
    {
        let c: char = cs[i];
        if !('0' <= c && c <= '9') {
            assert(ds[i - start] == cs@[i as int]);
            assert(!is_digit(ds[i - start]));
            return None;
        }
        let dgt: usize = ((c as u32) - ('0' as u32)) as usize;
        let ghost pre = cs@.subrange(start as int, i as int);
        assert(cs@.subrange(start as int, i + 1).subrange(0, i - start) =~= pre);
        if !overflow {
            if value > (usize::MAX - dgt) / 10 {
                overflow = true;
            } else {
                value = value * 10 + dgt;
            }
        } else {
            assert(decimal(cs@.subrange(start as int, i + 1)) >= decimal(pre));
        }
        i = i + 1;
    }
    assert(cs@.subrange(start as int, cs@.len() as int) == ds);
    if overflow {
        None
    } else {
        Some(value)
    }
}

/// Bit pattern (IEEE-754 single precision) of the default silence threshold, minus fifty-two decibels.
pub const DEFAULT_SILENCE_THRESHOLD_BITS: u32 = 0xC250_0000u32;
/// Bit pattern (IEEE-754 single precision) of the default peak limit, one.
pub const DEFAULT_PEAK_LIMIT_BITS: u32 = 0x3F80_0000u32;
/// Bit pattern (IEEE-754 single precision) of the default voicing threshold, ninety-three hundredths.
pub const DEFAULT_VOICED_THRESHOLD_BITS: u32 = 0x3F6E_147Bu32;
/// Default number of frames kept around a cut.
pub const DEFAULT_FILL: usize = 6;
/// Default number of vocoder workers.
pub const DEFAULT_MAX_WORKERS: usize = 2;

/// Server configuration. Real-valued settings are held as the bit patterns
/// of their IEEE-754 single-precision values.
#[derive(Debug, Clone, PartialEq)]
pub struct NHVConfig {
    pub vocoder_path: String,
    pub wave_norm: bool,
    pub trim_silence: bool,
    pub silence_threshold: u32,
    pub loop_mode: bool,
    pub peak_limit: u32,
    pub fill: usize,
    pub max_workers: usize,
    pub voiced_threshold: u32,
}

/// Default location of the vocoder model.
pub open spec fn default_vocoder_path() -> Seq<char> {
    "./model/nhv_v3x.onnx"@
}

/// `c` holds the default of every setting.
pub open spec fn is_default_config(c: NHVConfig) -> bool {
    &&& c.vocoder_path@ == default_vocoder_path()
    &&& c.wave_norm
    &&& c.trim_silence
    &&& c.silence_threshold == DEFAULT_SILENCE_THRESHOLD_BITS
    &&& c.loop_mode
    &&& c.peak_limit == DEFAULT_PEAK_LIMIT_BITS
    &&& c.fill == DEFAULT_FILL
    &&& c.max_workers == DEFAULT_MAX_WORKERS
    &&& c.voiced_threshold == DEFAULT_VOICED_THRESHOLD_BITS
}

impl Default for NHVConfig {
    fn default() -> (r: Self)
        ensures
            is_default_config(r),
    {
        NHVConfig {
            vocoder_path: "./model/nhv_v3x.onnx".to_owned(),
            wave_norm: true,
            trim_silence: true,
            silence_threshold: DEFAULT_SILENCE_THRESHOLD_BITS,
            loop_mode: true,
            peak_limit: DEFAULT_PEAK_LIMIT_BITS,
            fill: DEFAULT_FILL,
            max_workers: DEFAULT_MAX_WORKERS,
            voiced_threshold: DEFAULT_VOICED_THRESHOLD_BITS,
        }
    }
}

/// Index of the last of the first `upto` entries whose key is `key`.
pub open spec fn last_index(es: Seq<(Seq<char>, Seq<char>)>, key: Seq<char>, upto: int) -> Option<int>
    decreases upto,
{
    if upto <= 0 {
        None
    } else if es[upto - 1].0 == key {
        Some(upto - 1)
    } else {
        last_index(es, key, upto - 1)
    }
}

/// Index of the entry that sets `key`: the last one with that key, as when
/// the entries are inserted one after the other into a map.
pub open spec fn setting_index(es: Seq<(Seq<char>, Seq<char>)>, key: Seq<char>) -> Option<int> {
    last_index(es, key, es.len() as int)
}

/// Text of the setting `key`, if set.
pub open spec fn text_setting(es: Seq<(Seq<char>, Seq<char>)>, key: Seq<char>) -> Option<Seq<char>> {
    match setting_index(es, key) {
        Some(i) => Some(es[i].1),
        None => None,
    }
}

/// Boolean setting `key`, or `dflt` when it is not set or does not read as a boolean.
pub open spec fn bool_setting(es: Seq<(Seq<char>, Seq<char>)>, key: Seq<char>, dflt: bool) -> bool {
    match text_setting(es, key) {
        Some(v) => match bool_text(v) {
            Some(b) => b,
            None => dflt,
        },
        None => dflt,
    }
}

/// Count setting `key`, or `dflt` when it is not set or does not read as a count.
pub open spec fn count_setting(es: Seq<(Seq<char>, Seq<char>)>, key: Seq<char>, dflt: nat) -> nat {
    match text_setting(es, key) {
        Some(v) => match count_text(v) {
            Some(n) => n,
            None => dflt,
        },
        None => dflt,
    }
}

/// Real setting `key`, or `dflt` when it is not set or does not read as a
/// real number; `reals[i]` is the reading of the text of entry `i`.
pub open spec fn real_setting(es: Seq<(Seq<char>, Seq<char>)>, reals: Seq<Option<u32>>, key: Seq<char>, dflt: u32) -> u32 {
    match setting_index(es, key) {
        Some(i) => match reals[i] {
            Some(x) => x,
            None => dflt,
        },
        None => dflt,
    }
}

/// The configuration that the entries `es` of a configuration file's
/// general section set, with `reals[i]` the reading of entry `i` as a real
/// number; every setting that is missing or unreadable keeps its default.
pub open spec fn config_from(c: NHVConfig, es: Seq<(Seq<char>, Seq<char>)>, reals: Seq<Option<u32>>) -> bool {
    &&& c.vocoder_path@ == (match text_setting(es, "vocoder_path"@) {
        Some(v) => v,
        None => default_vocoder_path(),
    })
    &&& c.wave_norm == bool_setting(es, "wave_norm"@, true)
    &&& c.trim_silence == bool_setting(es, "trim_silence"@, true)
    &&& c.loop_mode == bool_setting(es, "loop_mode"@, true)
    &&& c.silence_threshold == real_setting(es, reals, "silence_threshold"@, DEFAULT_SILENCE_THRESHOLD_BITS)
    &&& c.peak_limit == real_setting(es, reals, "peak_limit"@, DEFAULT_PEAK_LIMIT_BITS)
    &&& c.fill == count_setting(es, "fill"@, DEFAULT_FILL as nat)
    &&& c.max_workers == count_setting(es, "max_workers"@, DEFAULT_MAX_WORKERS as nat)
    &&& c.voiced_threshold == real_setting(es, reals, "voiced_threshold"@, DEFAULT_VOICED_THRESHOLD_BITS)
}

/// Index of the entry that sets `key` (see [`setting_index`]).
fn find_setting(es: &Vec<(String, String)>, key: &str) -> (r: Option<usize>)
    ensures
        r matches Some(i) ==> i < es@.len() && es.deep_view()[i as int] == (es@[i as int].0@, es@[i as int].1@),
        match setting_index(es.deep_view(), key@) {
            Some(i) => 0 <= i < es@.len() && (r matches Some(k) && k as int == i),
            None => r is None,
        },
{
    let k: String = key.to_owned();
    let ghost dv = es.deep_view();
    assert(dv.len() == es@.len());
    let mut i: usize = es.len();
    while i > 0
        invariant
            i <= es@.len(),
            dv == es.deep_view(),
            dv.len() == es@.len(),
            k@ == key@,
            setting_index(dv, key@) == last_index(dv, key@, i as int),
        decreases i,
    {
        assert(dv[i - 1] == (es@[i - 1].0@, es@[i - 1].1@));
        if es[i - 1].0 == k {
            return Some(i - 1);
        }
        i = i - 1;
    }
    None
}

fn bool_or(es: &Vec<(String, String)>, key: &str, dflt: bool) -> (r: bool)
    ensures
        r == bool_setting(es.deep_view(), key@, dflt),
{
    match find_setting(es, key) {
        Some(i) => {
            assert(es.deep_view()[i as int] == (es@[i as int].0@, es@[i as int].1@));
            match parse_bool_text(es[i].1.as_str()) {
                Some(b) => b,
                None => dflt,
            }
        },
        None => dflt,
    }
}

fn count_or(es: &Vec<(String, String)>, key: &str, dflt: usize) -> (r: usize)
    ensures
        r == count_setting(es.deep_view(), key@, dflt as nat),
{
    match find_setting(es, key) {
        Some(i) => {
            assert(es.deep_view()[i as int] == (es@[i as int].0@, es@[i as int].1@));
            match parse_count_text(es[i].1.as_str()) {
                Some(n) => n,
                None => dflt,
            }
        },
        None => dflt,
    }
}

fn real_or(es: &Vec<(String, String)>, reals: &Vec<Option<u32>>, key: &str, dflt: u32) -> (r: u32)
    requires
        reals@.len() == es@.len(),
    ensures
        r == real_setting(es.deep_view(), reals@, key@, dflt),
{
    let f: Option<usize> = find_setting(es, key);
    match f {
        Some(i) => {
            assert(setting_index(es.deep_view(), key@) == Some(i as int));
            match reals[i] {
                Some(x) => x,
                None => dflt,
            }
        },
        None => {
            assert(setting_index(es.deep_view(), key@) is None);
            dflt
        },
    }
}

/// Builds the configuration from the entries of a configuration file's
/// general section (see [`config_from`]); `reals[i]` is the reading of the
/// text of entry `i` as a real number (its bit pattern), if it reads as one.
pub fn config_from_entries(es: &Vec<(String, String)>, reals: &Vec<Option<u32>>) -> (r: NHVConfig)
    requires
        reals@.len() == es@.len(),
    ensures
        config_from(r, es.deep_view(), reals@),
{
    let vocoder_path: String = match find_setting(es, "vocoder_path") {
        Some(i) => {
            assert(es.deep_view()[i as int] == (es@[i as int].0@, es@[i as int].1@));
            es[i].1.clone()
        },
        None => "./model/nhv_v3x.onnx".to_owned(),
    };
    NHVConfig {
        vocoder_path,
        wave_norm: bool_or(es, "wave_norm", true),
        trim_silence: bool_or(es, "trim_silence", true),
        silence_threshold: real_or(es, reals, "silence_threshold", DEFAULT_SILENCE_THRESHOLD_BITS),
        loop_mode: bool_or(es, "loop_mode", true),
        peak_limit: real_or(es, reals, "peak_limit", DEFAULT_PEAK_LIMIT_BITS),
        fill: count_or(es, "fill", DEFAULT_FILL),
        max_workers: count_or(es, "max_workers", DEFAULT_MAX_WORKERS),
        voiced_threshold: real_or(es, reals, "voiced_threshold", DEFAULT_VOICED_THRESHOLD_BITS),
    }
}

proof fn lemma_last_index_prefix(es: Seq<(Seq<char>, Seq<char>)>, e: (Seq<char>, Seq<char>), key: Seq<char>, upto: int)
    requires
        upto <= es.len(),
    ensures
        last_index(es.push(e), key, upto) == last_index(es, key, upto),
    decreases upto,
{
    if upto > 0 {
        lemma_last_index_prefix(es, e, key, upto - 1);
    }
}

proof fn lemma_last_index_range(es: Seq<(Seq<char>, Seq<char>)>, key: Seq<char>, upto: int)
    ensures
        last_index(es, key, upto) matches Some(i) ==> 0 <= i < upto,
    decreases upto,
{
    if upto > 0 {
        lemma_last_index_range(es, key, upto - 1);
    }
}

proof fn lemma_setting_after_push(es: Seq<(Seq<char>, Seq<char>)>, k: Seq<char>, v: Seq<char>, key: Seq<char>)
    ensures
        setting_index(es.push((k, v)), key) == if k == key { Some(es.len() as int) } else { setting_index(es, key) },
        setting_index(es, key) matches Some(i) ==> 0 <= i < es.len(),
{
    lemma_last_index_prefix(es, (k, v), key, es.len() as int);
    lemma_last_index_range(es, key, es.len() as int);
}

/// Each setting is read from its own key: appending an entry `(k, v)` to a
/// file (with `x` the reading of `v` as a real number) sets the field named
/// `k` from `v` (its default when `v` does not read) and leaves every other
/// field as it was.
pub proof fn lemma_entry_sets_its_own_field(
    c1: NHVConfig,
    c2: NHVConfig,
    es: Seq<(Seq<char>, Seq<char>)>,
    reals: Seq<Option<u32>>,
    k: Seq<char>,
    v: Seq<char>,
    x: Option<u32>,
)
    requires
        reals.len() == es.len(),
        config_from(c1, es, reals),
        config_from(c2, es.push((k, v)), reals.push(x)),
    ensures
        c2.vocoder_path@ == if k == "vocoder_path"@ { v } else { c1.vocoder_path@ },
        c2.wave_norm == if k == "wave_norm"@ {
            match bool_text(v) { Some(b) => b, None => true }
        } else {
            c1.wave_norm
        },
        c2.trim_silence == if k == "trim_silence"@ {
            match bool_text(v) { Some(b) => b, None => true }
        } else {
            c1.trim_silence
        },
        c2.loop_mode == if k == "loop_mode"@ {
            match bool_text(v) { Some(b) => b, None => true }
        } else {
            c1.loop_mode
        },
        c2.silence_threshold == if k == "silence_threshold"@ {
            match x { Some(y) => y, None => DEFAULT_SILENCE_THRESHOLD_BITS }
        } else {
            c1.silence_threshold
        },
        c2.peak_limit == if k == "peak_limit"@ {
            match x { Some(y) => y, None => DEFAULT_PEAK_LIMIT_BITS }
        } else {
            c1.peak_limit
        },
        c2.fill == if k == "fill"@ {
            match count_text(v) { Some(m) => m, None => DEFAULT_FILL as nat }
        } else {
            c1.fill as nat
        },
        c2.max_workers == if k == "max_workers"@ {
            match count_text(v) { Some(m) => m, None => DEFAULT_MAX_WORKERS as nat }
        } else {
            c1.max_workers as nat
        },
        c2.voiced_threshold == if k == "voiced_threshold"@ {
            match x { Some(y) => y, None => DEFAULT_VOICED_THRESHOLD_BITS }
        } else {
            c1.voiced_threshold
        },
{
    let es2 = es.push((k, v));
    let r2 = reals.push(x);
    lemma_setting_after_push(es, k, v, "vocoder_path"@);
    lemma_setting_after_push(es, k, v, "wave_norm"@);
    lemma_setting_after_push(es, k, v, "trim_silence"@);
    lemma_setting_after_push(es, k, v, "loop_mode"@);
    lemma_setting_after_push(es, k, v, "silence_threshold"@);
    lemma_setting_after_push(es, k, v, "peak_limit"@);
    lemma_setting_after_push(es, k, v, "fill"@);
    lemma_setting_after_push(es, k, v, "max_workers"@);
    lemma_setting_after_push(es, k, v, "voiced_threshold"@);
    assert(es2[es.len() as int] == (k, v));
    assert(r2[es.len() as int] == x);
    assert(forall|i: int| 0 <= i < es.len() ==> #[trigger] es2[i] == es[i] && r2[i] == reals[i]);
}

/// A configuration file without entries leaves every setting at its default.
pub proof fn lemma_no_entries_is_default(c: NHVConfig)
    requires
        config_from(c, Seq::empty(), Seq::empty()),
    ensures
        is_default_config(c),
{
}

/// The properties of the general section of INI text `text` as (key, value)
/// pairs in file order, or `None` when the text is not valid INI. This is
/// the reading of `ini::Ini::load_from_str` with default options.
pub uninterp spec fn ini_general_properties(text: Seq<char>) -> Option<Seq<(Seq<char>, Seq<char>)>>;

/// Calls `ini::Ini::load_from_str` on `text` and lists the properties of the
/// general section (which every parsed `Ini` holds) in the order the crate's
/// iterator gives them. The contract only names the result: it is a
/// function of the text alone.
#[verifier::external_body]
fn ini_general_section(text: &str) -> (r: Option<Vec<(String, String)>>)
    ensures
        r.deep_view() == ini_general_properties(text@),
{
    match Ini::load_from_str(text) {
        Ok(ini) => {
            let mut v: Vec<(String, String)> = Vec::new();
            for (k, val) in ini.general_section().iter() {
                v.push((k.to_string(), val.to_string()));
            }
            Some(v)
        },
        Err(_) => None,
    }
}

/// The settings of a configuration file, given its text (`None` when the
/// file cannot be read): the general-section properties when the text is
/// valid INI, otherwise none at all.
pub fn config_entries(text: Option<&str>) -> (r: Vec<(String, String)>)
    ensures
        r.deep_view() == (match text {
            Some(t) => match ini_general_properties(t@) {
                Some(es) => es,
                None => Seq::empty(),
            },
            None => Seq::<(Seq<char>, Seq<char>)>::empty(),
        }),
{
    match text {
        Some(t) => match ini_general_section(t) {
            Some(es) => es,
            None => {
                let e: Vec<(String, String)> = Vec::new();
                assert(e.deep_view() =~= Seq::<(Seq<char>, Seq<char>)>::empty());
                e
            },
        },
        None => {
            let e: Vec<(String, String)> = Vec::new();
            assert(e.deep_view() =~= Seq::<(Seq<char>, Seq<char>)>::empty());
            e
        },
    }
}

} // verus!
