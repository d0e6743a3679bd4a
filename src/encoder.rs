use vstd::prelude::*;
use vstd::arithmetic::power2::pow2;
use vstd::bits::lemma_u64_shr_is_div;
use crate::error_correction::CorrectionLevels;
use crate::qr_errors::{EncodingError, ErrorKind};
use crate::qr_types::QRSymbolTypes;
use crate::generator::Options;
use crate::sizer::{capacity_bits, count_bits, data_capacity, last_version, mode_available, supported, Sizer};

verus! {

/// The segment modes; `Dynamic` lets the encoder choose.
#[derive(Clone, Copy, Debug, PartialEq, Eq, Structural)]
pub enum EncodingModes {
    Numeric,
    AlphaNumeric,
    Kanji,
    Byte,
    Dynamic,
}

/// A decimal digit.
pub open spec fn is_digit(c: u8) -> bool {
    48 <= c <= 57
}

/// A character of the alphanumeric alphabet: digits, upper-case letters,
/// space and `$%*+-./:`.
pub open spec fn is_alnum(c: u8) -> bool {
    is_digit(c) || (65 <= c <= 90) || c == 32 || c == 36 || c == 37 || c == 42 || c == 43 || c == 45 || c == 46
        || c == 47 || c == 58
}

/// The alphanumeric table: digits 0-9, letters 10-35, then space $ % * + - . / :.
pub open spec fn alnum_value(c: u8) -> nat {
    if is_digit(c) {
        (c - 48) as nat
    } else if 65 <= c <= 90 {
        (c - 55) as nat
    } else if c == 32 {
        36
    } else if c == 36 {
        37
    } else if c == 37 {
        38
    } else if c == 42 {
        39
    } else if c == 43 {
        40
    } else if c == 45 {
        41
    } else if c == 46 {
        42
    } else if c == 47 {
        43
    } else {
        44
    }
}

/// The class of a character: the smallest mode that holds it.
pub open spec fn char_class(c: u8) -> EncodingModes {
    if is_digit(c) {
        EncodingModes::Numeric
    } else if is_alnum(c) {
        EncodingModes::AlphaNumeric
    } else {
        EncodingModes::Byte
    }
}

/// `c` can be written in `mode`.
pub open spec fn encodable(mode: EncodingModes, c: u8) -> bool {
    match mode {
        EncodingModes::Numeric => is_digit(c),
        EncodingModes::AlphaNumeric => is_alnum(c),
        _ => true,
    }
}

/// `value` as `width` bits, most significant first (its low bits where it
/// does not fit).
pub open spec fn bits_of(value: nat, width: nat) -> Seq<bool> {
    Seq::new(width, |i: int| (value / pow2((width - 1 - i) as nat)) % 2 == 1)
}

/// The numeric payload: groups of three digits in 10 bits, a final pair in
/// 7 bits, a final single digit in 4 bits.
pub open spec fn numeric_bits(d: Seq<u8>) -> Seq<bool>
    decreases d.len(),
{
    if d.len() == 0 {
        Seq::empty()
    } else if d.len() == 1 {
        bits_of((d[0] - 48) as nat, 4)
    } else if d.len() == 2 {
        bits_of(((d[0] - 48) * 10 + (d[1] - 48)) as nat, 7)
    } else {
        bits_of(((d[0] - 48) * 100 + (d[1] - 48) * 10 + (d[2] - 48)) as nat, 10) + numeric_bits(d.skip(3))
    }
}

/// The alphanumeric payload: pairs in 11 bits, a final single character in
/// 6 bits.
pub open spec fn alnum_bits(d: Seq<u8>) -> Seq<bool>
    decreases d.len(),
{
    if d.len() == 0 {
        Seq::empty()
    } else if d.len() == 1 {
        bits_of(alnum_value(d[0]), 6)
    } else {
        bits_of(alnum_value(d[0]) * 45 + alnum_value(d[1]), 11) + alnum_bits(d.skip(2))
    }
}

/// The byte payload: eight bits per byte.
pub open spec fn byte_bits(d: Seq<u8>) -> Seq<bool>
    decreases d.len(),
{
    if d.len() == 0 {
        Seq::empty()
    } else {
        bits_of(d[0] as nat, 8) + byte_bits(d.skip(1))
    }
}

pub open spec fn payload(mode: EncodingModes, d: Seq<u8>) -> Seq<bool> {
    match mode {
        EncodingModes::Numeric => numeric_bits(d),
        EncodingModes::AlphaNumeric => alnum_bits(d),
        _ => byte_bits(d),
    }
}

/// The mode indicator: four bits for Standard symbols, `version - 1` bits
/// for Micro ones.
pub open spec fn mode_indicator(kind: QRSymbolTypes, mode: EncodingModes, v: int) -> Seq<bool> {
    match kind {
        QRSymbolTypes::QRCode => bits_of(
            match mode {
                EncodingModes::Numeric => 1nat,
                EncodingModes::AlphaNumeric => 2nat,
                EncodingModes::Byte => 4nat,
                _ => 8nat,
            },
            4,
        ),
        QRSymbolTypes::MicroQRCode => bits_of(
            match mode {
                EncodingModes::Numeric => 0nat,
                EncodingModes::AlphaNumeric => 1nat,
                EncodingModes::Byte => 2nat,
                _ => 3nat,
            },
            (v - 1) as nat,
        ),
    }
}

/// Mode indicator and character count of a segment.
pub open spec fn preamble(kind: QRSymbolTypes, mode: EncodingModes, v: int, count: nat) -> Seq<bool> {
    mode_indicator(kind, mode, v) + bits_of(count, count_bits(kind, mode, v) as nat)
}

/// Where the run of characters from `start` that `mode` holds ends.
pub open spec fn run_end(input: Seq<u8>, start: int, mode: EncodingModes) -> int
    decreases input.len() - start,
{
    if start < 0 || start >= input.len() || !encodable(mode, input[start]) {
        start
    } else {
        run_end(input, start + 1, mode)
    }
}

/// Distance from `i` to the next character of class `class`, if any.
pub open spec fn next_of_class(input: Seq<u8>, i: int, class: EncodingModes) -> Option<usize>
    decreases input.len() - i,
{
    if i < 0 || i >= input.len() {
        None
    } else if char_class(input[i]) == class {
        Some(0)
    } else {
        match next_of_class(input, i + 1, class) {
            Some(d) => Some((d + 1) as usize),
            None => None,
        }
    }
}

/// The distances from one position to the next character of each class.
#[derive(Clone, Copy, Debug, PartialEq, Eq, Structural)]
pub struct DistToNextType {
    pub numeric: Option<usize>,
    pub alpha_numeric: Option<usize>,
    pub kanji: Option<usize>,
    pub byte: Option<usize>,
}

/// The distances at position `i`.
pub open spec fn distances_at(input: Seq<u8>, i: int) -> DistToNextType {
    DistToNextType {
        numeric: next_of_class(input, i, EncodingModes::Numeric),
        alpha_numeric: next_of_class(input, i, EncodingModes::AlphaNumeric),
        kanji: None,
        byte: next_of_class(input, i, EncodingModes::Byte),
    }
}

/// A distance from position `i`, as a position.
pub open spec fn offset_by(d: Option<usize>, i: int) -> Option<usize> {
    match d {
        Some(x) => Some((x + i) as usize),
        None => None,
    }
}

/// `d` is less than `limit`.
pub open spec fn within(d: Option<usize>, limit: int) -> bool {
    match d {
        Some(x) => x < limit,
        None => false,
    }
}

/// The first mode for a payload starting with `c`, given the distances at
/// its start and the version bucket (9, 26 or 40).
pub open spec fn initial_mode(c: u8, d: DistToNextType, bucket: int) -> EncodingModes {
    if !is_alnum(c) {
        EncodingModes::Byte
    } else if !is_digit(c) {
        let limit = if bucket <= 9 { 6int } else if bucket <= 26 { 7int } else { 8int };
        if within(d.byte, limit) { EncodingModes::Byte } else { EncodingModes::AlphaNumeric }
    } else {
        let byte_limit = if bucket <= 26 { 4int } else { 5int };
        let an_limit = if bucket <= 9 { 7int } else if bucket <= 26 { 8int } else { 9int };
        if within(d.byte, byte_limit) {
            EncodingModes::Byte
        } else if within(d.alpha_numeric, an_limit) && (match (d.alpha_numeric, d.byte) {
            (Some(a), Some(b)) => a < b,
            _ => true,
        }) {
            EncodingModes::AlphaNumeric
        } else {
            EncodingModes::Numeric
        }
    }
}

/// The segments of a payload with the mode chosen afresh at the start of
/// each run: from `start` on.
pub open spec fn dynamic_segments(input: Seq<u8>, start: int, kind: QRSymbolTypes, v: int, bucket: int) -> Seq<bool>
    decreases input.len() - start,
{
    if start < 0 || start >= input.len() {
        Seq::empty()
    } else {
        let m = initial_mode(input[start], distances_at(input, start), bucket);
        let e = run_end(input, start, m);
        if e <= start || e > input.len() {
            Seq::empty()
        } else {
            preamble(kind, m, v, (e - start) as nat) + payload(m, input.subrange(start, e)) + dynamic_segments(
                input,
                e,
                kind,
                v,
                bucket,
            )
        }
    }
}

/// The size bucket: the version if given, else a guess from the payload's
/// length as Byte data at the level, then 9, 26 or 40.
pub open spec fn size_estimate_spec(version: Option<u32>, level: CorrectionLevels, len: int) -> u32 {
    let v: int = match version {
        Some(v) => v as int,
        None => {
            let (small, medium) = match level {
                CorrectionLevels::L => (230int, 1367int),
                CorrectionLevels::M => (180int, 1059int),
                CorrectionLevels::Q => (130int, 751int),
                _ => (98int, 593int),
            };
            if len <= small { 9int } else if len <= medium { 26int } else { 40int }
        },
    };
    if v <= 9 { 9 } else if v <= 26 { 26 } else { 40 }
}

/// `n` zero bits.
pub open spec fn zeros(n: nat) -> Seq<bool> {
    Seq::new(n, |i: int| false)
}

/// The terminator's full width.
pub open spec fn terminator_len(kind: QRSymbolTypes, v: int) -> int {
    match kind {
        QRSymbolTypes::QRCode => 4,
        QRSymbolTypes::MicroQRCode => 2 * v + 1,
    }
}

/// The pad codewords `i .. count`: 0xEC and 0x11 by turns, the last a
/// zero nibble in M1 and M3.
pub open spec fn pad_bits_from(i: nat, count: nat, nibble_last: bool) -> Seq<bool>
    decreases count - i,
{
    if i >= count {
        Seq::empty()
    } else {
        (if nibble_last && i == count - 1 {
            zeros(4)
        } else if i % 2 == 0 {
            bits_of(0xEC, 8)
        } else {
            bits_of(0x11, 8)
        }) + pad_bits_from(i + 1, count, nibble_last)
    }
}

/// The value of the eight bits from `p` (zero beyond the end), most
/// significant first, over the first `t` of them.
pub open spec fn byte_value(bits: Seq<bool>, p: int, t: int) -> nat
    decreases t,
{
    if t <= 0 {
        0
    } else {
        2 * byte_value(bits, p, t - 1) + (if p + t - 1 < bits.len() && bits[p + t - 1] { 1nat } else { 0nat })
    }
}

/// The bits packed into bytes, most significant bit first, the last byte
/// filled with zeros.
pub open spec fn pack(bits: Seq<bool>) -> Seq<u8> {
    Seq::new(((bits.len() + 7) / 8) as nat, |j: int| byte_value(bits, 8 * j, 8) as u8)
}

/// Terminator, alignment and padding after the segments, as codewords, or
/// the error when the segments overflow the symbol.
pub open spec fn finish(stream: Seq<bool>, kind: QRSymbolTypes, v: int, level: CorrectionLevels) -> Result<Seq<u8>, EncodingError> {
    let cap = capacity_bits(kind, v, level);
    if stream.len() > cap {
        Err(EncodingError { kind: ErrorKind::OverCapacity })
    } else {
        let room = cap - stream.len();
        let t = if terminator_len(kind, v) < room { terminator_len(kind, v) } else { room };
        let s1 = stream + zeros(t as nat);
        let s2 = s1 + zeros(((8 - s1.len() % 8) % 8) as nat);
        let k = data_capacity(kind, v, level);
        let m = s2.len() / 8;
        let nibble = kind == QRSymbolTypes::MicroQRCode && (v == 1 || v == 3);
        let count = if k > m { (k - m) as nat } else { 0nat };
        Ok(pack(s2 + pad_bits_from(0, count, nibble)))
    }
}

/// The payload is in the requested mode's alphabet, and fits the Micro
/// version's restrictions.
pub open spec fn validate_spec(options: Options, input: Seq<u8>) -> Result<(), EncodingError> {
    let mode = match options.mode {
        Some(m) => m,
        None => EncodingModes::Dynamic,
    };
    if input.len() == 0 {
        Err(EncodingError { kind: ErrorKind::InputEmpty })
    } else if options.version is Some && options.qr_type == Some(QRSymbolTypes::MicroQRCode) && options.version->0 == 1
        && exists|i: int| 0 <= i < input.len() && !is_digit(#[trigger] input[i]) {
        Err(EncodingError { kind: ErrorKind::ModeIncompatible })
    } else if options.version is Some && options.qr_type == Some(QRSymbolTypes::MicroQRCode) && options.version->0 <= 2
        && exists|i: int| 0 <= i < input.len() && !is_alnum(#[trigger] input[i]) {
        Err(EncodingError { kind: ErrorKind::ModeIncompatible })
    } else if mode != EncodingModes::Byte && mode != EncodingModes::Dynamic && exists|i: int|
        0 <= i < input.len() && !is_alnum(#[trigger] input[i]) {
        Err(EncodingError { kind: ErrorKind::ModeIncompatible })
    } else if mode == EncodingModes::Numeric && exists|i: int| 0 <= i < input.len() && !is_digit(#[trigger] input[i]) {
        Err(EncodingError { kind: ErrorKind::ModeIncompatible })
    } else {
        Ok(())
    }
}

fn is_digit_exec(c: u8) -> (r: bool)
    ensures
        r == is_digit(c),
{
    48 <= c && c <= 57
}

/// Whether `c` is in the alphanumeric alphabet.
pub fn is_qr_alphanumeric(c: u8) -> (r: bool)
    ensures
        r == is_alnum(c),
{
    (48 <= c && c <= 57) || (65 <= c && c <= 90) || c == 32 || c == 36 || c == 37 || c == 42 || c == 43 || c == 45
        || c == 46 || c == 47 || c == 58
}

/// The class of a character.
pub fn char_type(c: u8) -> (r: EncodingModes)
    ensures
        r == char_class(c),
{
    if is_digit_exec(c) {
        EncodingModes::Numeric
    } else if is_qr_alphanumeric(c) {
        EncodingModes::AlphaNumeric
    } else {
        EncodingModes::Byte
    }
}

fn alnum_value_exec(c: u8) -> (r: u32)
    requires
        is_alnum(c),
    ensures
        r == alnum_value(c),
        r < 45,
{
    if 48 <= c && c <= 57 {
        (c - 48) as u32
    } else if 65 <= c && c <= 90 {
        (c - 55) as u32
    } else if c == 32 {
        36
    } else if c == 36 {
        37
    } else if c == 37 {
        38
    } else if c == 42 {
        39
    } else if c == 43 {
        40
    } else if c == 45 {
        41
    } else if c == 46 {
        42
    } else if c == 47 {
        43
    } else {
        44
    }
}

/// Appends `value` as `width` bits, most significant first.
fn push_bits(out: &mut Vec<bool>, value: u64, width: u32)
    requires
        width <= 32,
    ensures
        final(out)@ == old(out)@ + bits_of(value as nat, width as nat),
{
    let ghost start = old(out)@;
    let mut i: u32 = 0;
    while i < width
        invariant
            width <= 32,
            i <= width,
            out@ == start + bits_of(value as nat, width as nat).take(i as int),
        decreases width - i,
    {
        let shift = (width - 1 - i) as u64;
        proof {
            lemma_u64_shr_is_div(value, shift);
        }
        let bit = (value >> shift) % 2 == 1;
        proof {
            assert(bits_of(value as nat, width as nat).take(i + 1) =~= bits_of(value as nat, width as nat).take(i as int).push(bit));
        }
        out.push(bit);
        i += 1;
    }
    proof {
        assert(bits_of(value as nat, width as nat).take(width as int) =~= bits_of(value as nat, width as nat));
    }
}

fn encodable_exec(mode: EncodingModes, c: u8) -> (r: bool)
    ensures
        r == encodable(mode, c),
{
    match mode {
        EncodingModes::Numeric => is_digit_exec(c),
        EncodingModes::AlphaNumeric => is_qr_alphanumeric(c),
        _ => true,
    }
}

/// Where the run from `start` that `mode` holds ends.
fn find_run_end(input: &[u8], start: usize, mode: EncodingModes) -> (r: usize)
    requires
        start <= input@.len(),
    ensures
        r == run_end(input@, start as int, mode),
        start <= r <= input@.len(),
{
    let mut j = start;
    while j < input.len() && encodable_exec(mode, input[j])
        invariant
            start <= j <= input@.len(),
            run_end(input@, j as int, mode) == run_end(input@, start as int, mode),
        decreases input@.len() - j,
    {
        j += 1;
    }
    j
}

proof fn lemma_run_end_bounds(input: Seq<u8>, start: int, mode: EncodingModes)
    requires
        0 <= start <= input.len(),
    ensures
        start <= run_end(input, start, mode) <= input.len(),
        forall|i: int| start <= i < run_end(input, start, mode) ==> encodable(mode, #[trigger] input[i]),
    decreases input.len() - start,
{
    if start < input.len() && encodable(mode, input[start]) {
        lemma_run_end_bounds(input, start + 1, mode);
    }
}

/// The payload of `input[start..end]` in numeric mode.
fn numeric_payload(input: &[u8], start: usize, end: usize) -> (r: Vec<bool>)
    requires
        start <= end <= input@.len(),
        forall|i: int| start <= i < end ==> is_digit(#[trigger] input@[i]),
    ensures
        r@ == numeric_bits(input@.subrange(start as int, end as int)),
{
    let mut out: Vec<bool> = Vec::new();
    let mut i = start;
    while end - i >= 3
        invariant
            start <= i <= end <= input@.len(),
            forall|k: int| start <= k < end ==> is_digit(#[trigger] input@[k]),
            out@ + numeric_bits(input@.subrange(i as int, end as int)) == numeric_bits(input@.subrange(start as int, end as int)),
        decreases end - i,
    {
        let v = (input[i] - 48) as u64 * 100 + (input[i + 1] - 48) as u64 * 10 + (input[i + 2] - 48) as u64;
        let ghost d = input@.subrange(i as int, end as int);
        proof {
            assert(d.skip(3) =~= input@.subrange(i + 3, end as int));
            assert(d[0] == input@[i as int] && d[1] == input@[i + 1] && d[2] == input@[i + 2]);
        }
        push_bits(&mut out, v, 10);
        proof {
            assert(out@ + numeric_bits(input@.subrange(i + 3, end as int)) =~= numeric_bits(input@.subrange(start as int, end as int)));
        }
        i += 3;
    }
    let ghost d = input@.subrange(i as int, end as int);
    if end - i == 2 {
        let v = (input[i] - 48) as u64 * 10 + (input[i + 1] - 48) as u64;
        proof {
            assert(d[0] == input@[i as int] && d[1] == input@[i + 1]);
        }
        push_bits(&mut out, v, 7);
    } else if end - i == 1 {
        proof {
            assert(d[0] == input@[i as int]);
        }
        push_bits(&mut out, (input[i] - 48) as u64, 4);
    } else {
        proof {
            assert(d.len() == 0);
        }
    }
    proof {
        assert(out@ =~= numeric_bits(input@.subrange(start as int, end as int)));
    }
    out
}

/// The payload of `input[start..end]` in alphanumeric mode.
fn alphanumeric_payload(input: &[u8], start: usize, end: usize) -> (r: Vec<bool>)
    requires
        start <= end <= input@.len(),
        forall|i: int| start <= i < end ==> is_alnum(#[trigger] input@[i]),
    ensures
        r@ == alnum_bits(input@.subrange(start as int, end as int)),
{
    let mut out: Vec<bool> = Vec::new();
    let mut i = start;
    while end - i >= 2
        invariant
            start <= i <= end <= input@.len(),
            forall|k: int| start <= k < end ==> is_alnum(#[trigger] input@[k]),
            out@ + alnum_bits(input@.subrange(i as int, end as int)) == alnum_bits(input@.subrange(start as int, end as int)),
        decreases end - i,
    {
        let a = alnum_value_exec(input[i]);
        let b = alnum_value_exec(input[i + 1]);
        let ghost d = input@.subrange(i as int, end as int);
        proof {
            assert(d.skip(2) =~= input@.subrange(i + 2, end as int));
            assert(d[0] == input@[i as int] && d[1] == input@[i + 1]);
        }
        push_bits(&mut out, (a * 45 + b) as u64, 11);
        proof {
            assert(out@ + alnum_bits(input@.subrange(i + 2, end as int)) =~= alnum_bits(input@.subrange(start as int, end as int)));
        }
        i += 2;
    }
    let ghost d = input@.subrange(i as int, end as int);
    if end - i == 1 {
        proof {
            assert(d[0] == input@[i as int]);
        }
        let a = alnum_value_exec(input[i]);
        push_bits(&mut out, a as u64, 6);
    } else {
        proof {
            assert(d.len() == 0);
        }
    }
    proof {
        assert(out@ =~= alnum_bits(input@.subrange(start as int, end as int)));
    }
    out
}

/// The payload of `input[start..end]` in byte mode.
fn byte_payload(input: &[u8], start: usize, end: usize) -> (r: Vec<bool>)
    requires
        start <= end <= input@.len(),
    ensures
        r@ == byte_bits(input@.subrange(start as int, end as int)),
{
    let mut out: Vec<bool> = Vec::new();
    let mut i = start;
    while i < end
        invariant
            start <= i <= end <= input@.len(),
            out@ + byte_bits(input@.subrange(i as int, end as int)) == byte_bits(input@.subrange(start as int, end as int)),
        decreases end - i,
    {
        let ghost d = input@.subrange(i as int, end as int);
        proof {
            assert(d.skip(1) =~= input@.subrange(i + 1, end as int));
            assert(d[0] == input@[i as int]);
        }
        push_bits(&mut out, input[i] as u64, 8);
        proof {
            assert(out@ + byte_bits(input@.subrange(i + 1, end as int)) =~= byte_bits(input@.subrange(start as int, end as int)));
        }
        i += 1;
    }
    proof {
        assert(input@.subrange(end as int, end as int) =~= Seq::<u8>::empty());
        assert(out@ =~= byte_bits(input@.subrange(start as int, end as int)));
    }
    out
}

/// The payload of `input[start..end]` in `mode`.
fn mode_payload(input: &[u8], start: usize, end: usize, mode: EncodingModes) -> (r: Vec<bool>)
    requires
        start <= end <= input@.len(),
        forall|i: int| start <= i < end ==> encodable(mode, #[trigger] input@[i]),
    ensures
        r@ == payload(mode, input@.subrange(start as int, end as int)),
{
    match mode {
        EncodingModes::Numeric => numeric_payload(input, start, end),
        EncodingModes::AlphaNumeric => alphanumeric_payload(input, start, end),
        _ => byte_payload(input, start, end),
    }
}

/// The longest run of digits from `start`, as numeric payload, with its
/// character count.
pub fn encode_numeric_run(input: &[u8], start: usize) -> (r: (Vec<bool>, usize))
    requires
        start <= input@.len(),
    ensures
        r.1 == run_end(input@, start as int, EncodingModes::Numeric) - start,
        r.0@ == numeric_bits(input@.subrange(start as int, run_end(input@, start as int, EncodingModes::Numeric))),
{
    let end = find_run_end(input, start, EncodingModes::Numeric);
    proof {
        lemma_run_end_bounds(input@, start as int, EncodingModes::Numeric);
    }
    (numeric_payload(input, start, end), end - start)
}

proof fn lemma_next_bound(input: Seq<u8>, i: int, class: EncodingModes)
    requires
        0 <= i,
        input.len() <= usize::MAX,
    ensures
        next_of_class(input, i, class) matches Some(d) ==> i + d < input.len() && char_class(input[i + d]) == class,
    decreases input.len() - i,
{
    if i < input.len() && char_class(input[i]) != class {
        lemma_next_bound(input, i + 1, class);
    }
}

proof fn lemma_next_step(input: Seq<u8>, i: int, class: EncodingModes)
    requires
        0 <= i < input.len(),
        input.len() <= usize::MAX,
    ensures
        offset_by(next_of_class(input, i, class), i) == (if char_class(input[i]) == class {
            Some(i as usize)
        } else {
            offset_by(next_of_class(input, i + 1, class), i + 1)
        }),
{
    lemma_next_bound(input, i + 1, class);
}

/// The distances from each position to the next character of each class.
pub fn calculate_change_distances(input_data: &[u8]) -> (r: Vec<DistToNextType>)
    ensures
        r@.len() == input_data@.len(),
        forall|i: int| 0 <= i < r@.len() ==> #[trigger] r@[i] == distances_at(input_data@, i),
{
    let n = input_data.len();
    let mut rev: Vec<DistToNextType> = Vec::new();
    let mut next_numeric: Option<usize> = None;
    let mut next_alnum: Option<usize> = None;
    let mut next_byte: Option<usize> = None;
    let mut i = n;
    while i > 0
        invariant
            n == input_data@.len(),
            i <= n,
            rev@.len() == n - i,
            forall|k: int| 0 <= k < n - i ==> #[trigger] rev@[k] == distances_at(input_data@, n - 1 - k),
            next_numeric == offset_by(next_of_class(input_data@, i as int, EncodingModes::Numeric), i as int),
            next_alnum == offset_by(next_of_class(input_data@, i as int, EncodingModes::AlphaNumeric), i as int),
            next_byte == offset_by(next_of_class(input_data@, i as int, EncodingModes::Byte), i as int),
            next_numeric matches Some(j) ==> i <= j < n,
            next_alnum matches Some(j) ==> i <= j < n,
            next_byte matches Some(j) ==> i <= j < n,
        decreases i,
    {
        i -= 1;
        proof {
            lemma_next_step(input_data@, i as int, EncodingModes::Numeric);
            lemma_next_step(input_data@, i as int, EncodingModes::AlphaNumeric);
            lemma_next_step(input_data@, i as int, EncodingModes::Byte);
            lemma_next_bound(input_data@, i as int, EncodingModes::Numeric);
            lemma_next_bound(input_data@, i as int, EncodingModes::AlphaNumeric);
            lemma_next_bound(input_data@, i as int, EncodingModes::Byte);
        }
        let class = char_type(input_data[i]);
        match class {
            EncodingModes::Numeric => next_numeric = Some(i),
            EncodingModes::AlphaNumeric => next_alnum = Some(i),
            _ => next_byte = Some(i),
        }
        let numeric = match next_numeric { Some(j) => Some(j - i), None => None };
        let alpha_numeric = match next_alnum { Some(j) => Some(j - i), None => None };
        let byte = match next_byte { Some(j) => Some(j - i), None => None };
        rev.push(DistToNextType { numeric, alpha_numeric, kanji: None, byte });
    }
    let mut out: Vec<DistToNextType> = Vec::new();
    let mut k: usize = 0;
    while k < n
        invariant
            n == input_data@.len(),
            rev@.len() == n,
            forall|t: int| 0 <= t < n ==> #[trigger] rev@[t] == distances_at(input_data@, n - 1 - t),
            k <= n,
            out@.len() == k,
            forall|t: int| 0 <= t < k ==> #[trigger] out@[t] == distances_at(input_data@, t),
        decreases n - k,
    {
        out.push(rev[n - 1 - k]);
        k += 1;
    }
    out
}

/// The size bucket (9, 26 or 40) that the mode thresholds use.
pub fn estimate_size(version: Option<u32>, correction: CorrectionLevels, len: usize) -> (r: u32)
    ensures
        r == size_estimate_spec(version, correction, len as int),
{
    let v: u32 = match version {
        Some(v) => v,
        None => {
            let (small, medium): (usize, usize) = match correction {
                CorrectionLevels::L => (230, 1367),
                CorrectionLevels::M => (180, 1059),
                CorrectionLevels::Q => (130, 751),
                _ => (98, 593),
            };
            if len <= small { 9 } else if len <= medium { 26 } else { 40 }
        },
    };
    if v <= 9 { 9 } else if v <= 26 { 26 } else { 40 }
}

/// The mode to start in (Annex J of ISO/IEC 18004), from the payload and
/// the size bucket.
pub fn select_initial_encoding(input_data: &[u8], size_estimate: u32) -> (r: EncodingModes)
    requires
        input_data@.len() > 0,
    ensures
        r == initial_mode(input_data@[0], distances_at(input_data@, 0), size_estimate as int),
{
    let distances = calculate_change_distances(input_data);
    mode_at(input_data[0], distances[0], size_estimate)
}

fn within_exec(d: Option<usize>, limit: usize) -> (r: bool)
    ensures
        r == within(d, limit as int),
{
    match d {
        Some(x) => x < limit,
        None => false,
    }
}

fn mode_at(c: u8, d: DistToNextType, bucket: u32) -> (r: EncodingModes)
    ensures
        r == initial_mode(c, d, bucket as int),
{
    if !is_qr_alphanumeric(c) {
        EncodingModes::Byte
    } else if !is_digit_exec(c) {
        let limit: usize = if bucket <= 9 { 6 } else if bucket <= 26 { 7 } else { 8 };
        if within_exec(d.byte, limit) { EncodingModes::Byte } else { EncodingModes::AlphaNumeric }
    } else {
        let byte_limit: usize = if bucket <= 26 { 4 } else { 5 };
        let an_limit: usize = if bucket <= 9 { 7 } else if bucket <= 26 { 8 } else { 9 };
        if within_exec(d.byte, byte_limit) {
            EncodingModes::Byte
        } else {
            let before = match (d.alpha_numeric, d.byte) {
                (Some(a), Some(b)) => a < b,
                _ => true,
            };
            if within_exec(d.alpha_numeric, an_limit) && before {
                EncodingModes::AlphaNumeric
            } else {
                EncodingModes::Numeric
            }
        }
    }
}

/// The mode indicator and character count of a segment.
pub fn sequence_preamble(kind: QRSymbolTypes, version: u32, encoding: EncodingModes, char_count: usize) -> (r: Vec<bool>)
    requires
        1 <= version <= last_version(kind),
    ensures
        r@ == preamble(kind, encoding, version as int, char_count as nat),
{
    let mut out: Vec<bool> = Vec::new();
    match kind {
        QRSymbolTypes::QRCode => {
            let indicator: u64 = match encoding {
                EncodingModes::Numeric => 1,
                EncodingModes::AlphaNumeric => 2,
                EncodingModes::Byte => 4,
                _ => 8,
            };
            push_bits(&mut out, indicator, 4);
        },
        QRSymbolTypes::MicroQRCode => {
            let indicator: u64 = match encoding {
                EncodingModes::Numeric => 0,
                EncodingModes::AlphaNumeric => 1,
                EncodingModes::Byte => 2,
                _ => 3,
            };
            push_bits(&mut out, indicator, version - 1);
        },
    }
    let width = Sizer::count_bits(kind, encoding, version);
    proof {
        assert(out@ =~= Seq::<bool>::empty() + mode_indicator(kind, encoding, version as int));
    }
    push_bits(&mut out, char_count as u64, width as u32);
    proof {
        assert(out@ =~= preamble(kind, encoding, version as int, char_count as nat));
    }
    out
}

proof fn lemma_initial_mode_encodable(c: u8, d: DistToNextType, bucket: int)
    ensures
        encodable(initial_mode(c, d, bucket), c),
{
}

/// The segments of the whole payload, each run in the mode chosen at its
/// start.
fn dynamic_stream(input: &[u8], kind: QRSymbolTypes, version: u32, bucket: u32) -> (r: Vec<bool>)
    requires
        1 <= version <= last_version(kind),
    ensures
        r@ == dynamic_segments(input@, 0, kind, version as int, bucket as int),
{
    let distances = calculate_change_distances(input);
    let mut out: Vec<bool> = Vec::new();
    let mut start: usize = 0;
    while start < input.len()
        invariant
            1 <= version <= last_version(kind),
            distances@.len() == input@.len(),
            forall|i: int| 0 <= i < distances@.len() ==> #[trigger] distances@[i] == distances_at(input@, i),
            start <= input@.len(),
            out@ + dynamic_segments(input@, start as int, kind, version as int, bucket as int) == dynamic_segments(
                input@,
                0,
                kind,
                version as int,
                bucket as int,
            ),
        decreases input@.len() - start,
    {
        let m = mode_at(input[start], distances[start], bucket);
        let end = find_run_end(input, start, m);
        proof {
            lemma_initial_mode_encodable(input@[start as int], distances@[start as int], bucket as int);
            lemma_run_end_bounds(input@, start as int, m);
            assert(run_end(input@, start as int, m) == run_end(input@, start + 1, m));
            lemma_run_end_bounds(input@, start + 1, m);
        }
        let mut pre = sequence_preamble(kind, version, m, end - start);
        let mut body = mode_payload(input, start, end, m);
        let ghost before = out@;
        out.append(&mut pre);
        out.append(&mut body);
        proof {
            assert(out@ + dynamic_segments(input@, end as int, kind, version as int, bucket as int) =~= before
                + dynamic_segments(input@, start as int, kind, version as int, bucket as int));
        }
        start = end;
    }
    proof {
        assert(out@ =~= out@ + dynamic_segments(input@, start as int, kind, version as int, bucket as int));
    }
    out
}

/// Appends `n` zero bits.
fn push_zeros(out: &mut Vec<bool>, n: u64)
    ensures
        final(out)@ == old(out)@ + zeros(n as nat),
{
    let ghost start = old(out)@;
    let mut i: u64 = 0;
    while i < n
        invariant
            i <= n,
            out@ =~= start + zeros(i as nat),
        decreases n - i,
    {
        out.push(false);
        i += 1;
    }
}

/// The data codewords: the segments, then terminator, alignment to a
/// codeword and pad codewords up to the symbol's capacity.
#[verifier::spinoff_prover]
#[verifier::rlimit(60)]
fn finish_stream(stream: Vec<bool>, kind: QRSymbolTypes, version: u32, level: CorrectionLevels) -> (r: Result<Vec<u8>, EncodingError>)
    requires
        supported(kind, version as int, level),
    ensures
        match r {
            Ok(b) => finish(stream@, kind, version as int, level) == Ok::<Seq<u8>, EncodingError>(b@) && b@.len()
                == data_capacity(kind, version as int, level),
            Err(e) => finish(stream@, kind, version as int, level) == Err::<Seq<u8>, EncodingError>(e),
        },
{
    let k = Sizer::capacity(&kind, version, &level) as u64;
    proof {
        assert(k <= 0xFFFF_FFFF);
    }
    let nibble = kind == QRSymbolTypes::MicroQRCode && (version == 1 || version == 3);
    let cap: u64 = if nibble { if 8 * k >= 4 { 8 * k - 4 } else { 0 } } else { 8 * k };
    proof {
        if nibble {
            assert(k >= 3);
        }
    }
    if stream.len() as u64 > cap {
        return Err(EncodingError::new(ErrorKind::OverCapacity));
    }
    let mut out = stream;
    let ghost s0 = out@;
    let term: u64 = match kind {
        QRSymbolTypes::QRCode => 4,
        QRSymbolTypes::MicroQRCode => 2 * version as u64 + 1,
    };
    let room = cap - out.len() as u64;
    let t = if term < room { term } else { room };
    push_zeros(&mut out, t);
    let ghost s1 = out@;
    let rem = out.len() as u64 % 8;
    let fill = (8 - rem) % 8;
    push_zeros(&mut out, fill);
    let ghost s2 = out@;
    let m = out.len() as u64 / 8;
    proof {
        assert(s2.len() % 8 == 0);
        assert(s2.len() <= 8 * k);
    }
    let count = if k > m { k - m } else { 0 };
    let mut i: u64 = 0;
    while i < count
        invariant
            i <= count,
            out@ + pad_bits_from(i as nat, count as nat, nibble) == s2 + pad_bits_from(0, count as nat, nibble),
            out@.len() == s2.len() + 8 * i - (if nibble && i == count && count > 0 { 4int } else { 0int }),
        decreases count - i,
    {
        let ghost before = out@;
        if nibble && i == count - 1 {
            push_zeros(&mut out, 4);
        } else if i % 2 == 0 {
            push_bits(&mut out, 0xEC, 8);
        } else {
            push_bits(&mut out, 0x11, 8);
        }
        proof {
            assert(out@ + pad_bits_from((i + 1) as nat, count as nat, nibble) =~= before + pad_bits_from(i as nat, count as nat, nibble));
        }
        i += 1;
    }
    proof {
        assert(out@ =~= out@ + pad_bits_from(count as nat, count as nat, nibble));
        assert(s1 =~= s0 + zeros(t as nat));
        assert(s2 =~= s1 + zeros(((8 - s1.len() % 8) % 8) as nat));
        assert(m * 8 == s2.len());
        if count == 0 {
            assert(m == k);
        }
        assert((out@.len() + 7) / 8 == k);
    }
    Ok(crate::bit_buffer::pack_bits(&out))
}

fn any_not_digit(input: &[u8]) -> (r: bool)
    ensures
        r == exists|i: int| 0 <= i < input@.len() && !is_digit(#[trigger] input@[i]),
{
    let mut i: usize = 0;
    while i < input.len()
        invariant
            i <= input@.len(),
            forall|k: int| 0 <= k < i ==> is_digit(#[trigger] input@[k]),
        decreases input@.len() - i,
    {
        if !is_digit_exec(input[i]) {
            return true;
        }
        i += 1;
    }
    false
}

fn any_not_alnum(input: &[u8]) -> (r: bool)
    ensures
        r == exists|i: int| 0 <= i < input@.len() && !is_alnum(#[trigger] input@[i]),
{
    let mut i: usize = 0;
    while i < input.len()
        invariant
            i <= input@.len(),
            forall|k: int| 0 <= k < i ==> is_alnum(#[trigger] input@[k]),
        decreases input@.len() - i,
    {
        if !is_qr_alphanumeric(input[i]) {
            return true;
        }
        i += 1;
    }
    false
}

/// What encoding the payload under the options gives: the data codewords,
/// or the first error. Dynamic mode is for Standard symbols only.
pub open spec fn encode_spec(options: Options, input: Seq<u8>) -> Result<Seq<u8>, EncodingError> {
    let kind = options.qr_type->0;
    let v = options.version->0 as int;
    let level = options.correction_level->0;
    let mode = match options.mode {
        Some(m) => m,
        None => EncodingModes::Dynamic,
    };
    match validate_spec(options, input) {
        Err(e) => Err(e),
        Ok(_) => if mode == EncodingModes::Dynamic {
            if kind == QRSymbolTypes::MicroQRCode {
                Err(EncodingError { kind: ErrorKind::UnsupportedConfiguration })
            } else {
                finish(
                    dynamic_segments(input, 0, kind, v, size_estimate_spec(options.version, level, input.len() as int) as int),
                    kind,
                    v,
                    level,
                )
            }
        } else if !mode_available(kind, mode, v) {
            Err(EncodingError { kind: ErrorKind::UnsupportedConfiguration })
        } else {
            finish(preamble(kind, mode, v, input.len() as nat) + payload(mode, input), kind, v, level)
        },
    }
}

/// Turns a payload into data codewords.
pub struct Encoder {
    pub options: Options,
    pub input_data: Vec<u8>,
    pub output_data: Vec<u8>,
}

impl Encoder {
    pub fn new(options: Options, input_data: Vec<u8>) -> (r: Self)
        ensures
            r.options == options,
            r.input_data@ == input_data@,
            r.output_data@.len() == 0,
    {
        Encoder { options, input_data, output_data: Vec::new() }
    }

    /// Checks the payload against the options: not empty, within the Micro
    /// version's alphabet, and within the requested mode's alphabet.
    pub fn validate_data_stream_vs_options(&self) -> (r: Result<(), EncodingError>)
        ensures
            r == validate_spec(self.options, self.input_data@),
    {
        let input = self.input_data.as_slice();
        if input.len() == 0 {
            return Err(EncodingError::new(ErrorKind::InputEmpty));
        }
        let micro = match self.options.qr_type {
            Some(QRSymbolTypes::MicroQRCode) => true,
            _ => false,
        };
        if let Some(version) = self.options.version {
            if micro && version == 1 && any_not_digit(input) {
                return Err(EncodingError::new(ErrorKind::ModeIncompatible));
            }
            if micro && version <= 2 && any_not_alnum(input) {
                return Err(EncodingError::new(ErrorKind::ModeIncompatible));
            }
        }
        let mode = match self.options.mode {
            Some(m) => m,
            None => EncodingModes::Dynamic,
        };
        if mode != EncodingModes::Byte && mode != EncodingModes::Dynamic && any_not_alnum(input) {
            return Err(EncodingError::new(ErrorKind::ModeIncompatible));
        }
        if mode == EncodingModes::Numeric && any_not_digit(input) {
            return Err(EncodingError::new(ErrorKind::ModeIncompatible));
        }
        Ok(())
    }

    /// Encodes the payload into the symbol's data codewords, into
    /// `output_data`.
    pub fn encode_data_into_byte_stream(&mut self) -> (r: Result<(), EncodingError>)
        requires
            old(self).options.qr_type is Some,
            old(self).options.version is Some,
            old(self).options.correction_level is Some,
            supported(
                old(self).options.qr_type->0,
                old(self).options.version->0 as int,
                old(self).options.correction_level->0,
            ),
        ensures
            final(self).options == old(self).options,
            final(self).input_data@ == old(self).input_data@,
            match r {
                Ok(_) => encode_spec(old(self).options, old(self).input_data@) == Ok::<Seq<u8>, EncodingError>(final(self).output_data@)
                    && final(self).output_data@.len() == data_capacity(
                    old(self).options.qr_type->0,
                    old(self).options.version->0 as int,
                    old(self).options.correction_level->0,
                ),
                Err(e) => encode_spec(old(self).options, old(self).input_data@) == Err::<Seq<u8>, EncodingError>(e),
            },
    {
        match self.validate_data_stream_vs_options() {
            Err(e) => return Err(e),
            Ok(_) => {},
        }
        let kind = self.options.qr_type.unwrap();
        let version = self.options.version.unwrap();
        let level = self.options.correction_level.unwrap();
        let mode = match self.options.mode {
            Some(m) => m,
            None => EncodingModes::Dynamic,
        };
        let input = self.input_data.as_slice();
        let stream = if mode == EncodingModes::Dynamic {
            if kind == QRSymbolTypes::MicroQRCode {
                return Err(EncodingError::new(ErrorKind::UnsupportedConfiguration));
            }
            let bucket = estimate_size(self.options.version, level, input.len());
            dynamic_stream(input, kind, version, bucket)
        } else {
            let available = mode != EncodingModes::Kanji && (kind != QRSymbolTypes::MicroQRCode || ((version >= 2
                || mode == EncodingModes::Numeric) && (version >= 3 || mode != EncodingModes::Byte)));
            if !available {
                return Err(EncodingError::new(ErrorKind::UnsupportedConfiguration));
            }
            proof {
                assert forall|i: int| 0 <= i < input@.len() implies encodable(mode, #[trigger] input@[i]) by {
                    if mode == EncodingModes::Numeric {
                        assert(!(exists|i: int| 0 <= i < input@.len() && !is_digit(#[trigger] input@[i])));
                    } else if mode == EncodingModes::AlphaNumeric {
                        assert(!(exists|i: int| 0 <= i < input@.len() && !is_alnum(#[trigger] input@[i])));
                    }
                }
                assert(input@.subrange(0, input@.len() as int) =~= input@);
            }
            let mut pre = sequence_preamble(kind, version, mode, input.len());
            let mut body = mode_payload(input, 0, input.len(), mode);
            pre.append(&mut body);
            pre
        };
        match finish_stream(stream, kind, version, level) {
            Ok(bytes) => {
                self.output_data = bytes;
                Ok(())
            },
            Err(e) => Err(e),
        }
    }
}

} // verus!
