//! Codec options: which codec encodes package data, and with which
//! parameters, parsed from `"<name>[:<k>=<v>;...]"`.
use vstd::prelude::*;
use vstd::string::StrSliceExecFns;

use crate::name::str_eq;

verus! {

/// The codecs a package may name.
#[derive(Debug, Clone, Copy, PartialEq, Eq)]
pub enum Codec {
    Raw,
    Brotli,
    Zstd,
    Xz,
    Lzma,
    /// Patcher only: a delta against the file already on disk.
    Vcdiff,
}

/// The codec named `s`.
pub open spec fn codec_named(s: Seq<char>) -> Option<Codec> {
    if s == "raw"@ {
        Some(Codec::Raw)
    } else if s == "brotli"@ {
        Some(Codec::Brotli)
    } else if s == "zstd"@ {
        Some(Codec::Zstd)
    } else if s == "xz"@ {
        Some(Codec::Xz)
    } else if s == "lzma"@ {
        Some(Codec::Lzma)
    } else if s == "vcdiff"@ {
        Some(Codec::Vcdiff)
    } else {
        None
    }
}

/// The levels a codec accepts, and its default level.
pub open spec fn level_bounds(c: Codec) -> (u32, u32, u32) {
    match c {
        Codec::Brotli => (0, 11, 6),
        Codec::Zstd => (1, 22, 3),
        Codec::Xz => (0, 9, 6),
        Codec::Lzma => (0, 9, 6),
        _ => (0, 0, 0),
    }
}

#[derive(Debug, Clone, PartialEq, Eq)]
pub enum CodecError {
    /// No codec has that name.
    UnknownCodec,
    /// The codec has no option of that name.
    UnknownOption,
    /// A level that is not a number in the codec's range.
    InvalidLevel,
    /// A size that cannot be read.
    InvalidSize,
}

/// A codec with its parameters.
#[derive(Debug, Clone, Copy, PartialEq, Eq)]
pub struct CoderOptions {
    pub codec: Codec,
    pub level: u32,
    /// Inputs shorter than this are not encoded with this codec.
    pub minsize: u64,
}

impl Codec {
    pub fn from_name(s: &str) -> (r: Option<Codec>)
        ensures
            r == codec_named(s@),
    {
        if str_eq(s, "raw") {
            Some(Codec::Raw)
        } else if str_eq(s, "brotli") {
            Some(Codec::Brotli)
        } else if str_eq(s, "zstd") {
            Some(Codec::Zstd)
        } else if str_eq(s, "xz") {
            Some(Codec::Xz)
        } else if str_eq(s, "lzma") {
            Some(Codec::Lzma)
        } else if str_eq(s, "vcdiff") {
            Some(Codec::Vcdiff)
        } else {
            None
        }
    }

    /// The lowest level, the highest level and the default level.
    pub fn level_bounds(&self) -> (r: (u32, u32, u32))
        ensures
            r == level_bounds(*self),
    {
        match self {
            Codec::Brotli => (0, 11, 6),
            Codec::Zstd => (1, 22, 3),
            Codec::Xz => (0, 9, 6),
            Codec::Lzma => (0, 9, 6),
            _ => (0, 0, 0),
        }
    }
}

pub open spec fn is_digit(c: char) -> bool {
    '0' <= c && c <= '9'
}

/// The value of a string of decimal digits.
pub open spec fn decimal(s: Seq<char>) -> int
    decreases s.len(),
{
    if s.len() == 0 {
        0
    } else {
        decimal(s.drop_last()) * 10 + (s.last() as int - '0' as int)
    }
}

pub open spec fn is_decimal(s: Seq<char>) -> bool {
    s.len() > 0 && forall|i: int| 0 <= i < s.len() ==> is_digit(#[trigger] s[i])
}

proof fn lemma_decimal_prefix(s: Seq<char>, k: int)
    requires
        0 <= k <= s.len(),
        forall|i: int| 0 <= i < s.len() ==> is_digit(#[trigger] s[i]),
    ensures
        0 <= decimal(s.take(k)) <= decimal(s),
    decreases s.len() - k,
{
    if k < s.len() {
        lemma_decimal_prefix(s, k + 1);
        assert(s.take(k + 1).drop_last() =~= s.take(k));
        assert(s.take(k + 1).last() == s[k]);
    } else {
        assert(s.take(k) =~= s);
    }
    lemma_decimal_nonneg(s);
}

proof fn lemma_decimal_nonneg(s: Seq<char>)
    requires
        forall|i: int| 0 <= i < s.len() ==> is_digit(#[trigger] s[i]),
    ensures
        decimal(s) >= 0,
    decreases s.len(),
{
    if s.len() > 0 {
        let p = s.drop_last();
        assert forall|i: int| 0 <= i < p.len() implies is_digit(#[trigger] p[i]) by {
            assert(p[i] == s[i]);
        }
        lemma_decimal_nonneg(p);
        assert(is_digit(s[s.len() - 1]));
    }
}

/// The level `s` denotes for codec `c`: a decimal number in the codec's
/// range.
pub open spec fn level_of(c: Codec, s: Seq<char>) -> Option<u32> {
    if is_decimal(s) && level_bounds(c).0 <= decimal(s) <= level_bounds(c).1 {
        Some(decimal(s) as u32)
    } else {
        None
    }
}

/// Reads a level for codec `c` from `s`.
pub fn parse_level(c: Codec, s: &str) -> (r: Option<u32>)
    ensures
        r == level_of(c, s@),
{
    let (lo, hi, _) = c.level_bounds();
    let n = s.unicode_len();
    if n == 0 {
        return None;
    }
    let mut value: u32 = 0;
    let mut i: usize = 0;
    while i < n
        invariant
            n == s@.len(),
            i <= n,
            (lo, hi) == (level_bounds(c).0, level_bounds(c).1),
            hi <= 22,
            forall|j: int| 0 <= j < i ==> is_digit(#[trigger] s@[j]),
            value == decimal(s@.take(i as int)),
            value <= hi,
        decreases n - i,
    {
        let ch = s.get_char(i);
        if !('0' <= ch && ch <= '9') {
            return None;
        }
        let d = (ch as u32) - ('0' as u32);
        proof {
            assert(s@.take(i + 1).drop_last() =~= s@.take(i as int));
            assert(s@.take(i + 1).last() == ch);
        }
        value = value * 10 + d;
        i += 1;
        if value > hi {
            proof {
                if forall|j: int| 0 <= j < s@.len() ==> is_digit(#[trigger] s@[j]) {
                    lemma_decimal_prefix(s@, i as int);
                }
            }
            return None;
        }
    }
    assert(s@.take(n as int) =~= s@);
    if value < lo {
        return None;
    }
    Some(value)
}

/// The pieces of `t` between occurrences of `sep` (one piece when `sep`
/// does not occur).
pub open spec fn pieces(t: Seq<char>, sep: char) -> Seq<Seq<char>>
    decreases t.len(),
{
    if t.len() == 0 {
        seq![Seq::empty()]
    } else {
        let p = pieces(t.drop_last(), sep);
        if t.last() == sep {
            p.push(Seq::empty())
        } else {
            p.update(p.len() - 1, p.last().push(t.last()))
        }
    }
}

pub proof fn lemma_pieces_nonempty(t: Seq<char>, sep: char)
    ensures
        pieces(t, sep).len() >= 1,
    decreases t.len(),
{
    if t.len() > 0 {
        lemma_pieces_nonempty(t.drop_last(), sep);
    }
}

/// The pieces of `t` given as ranges of positions.
pub open spec fn texts(t: Seq<char>, rs: Seq<(usize, usize)>) -> Seq<Seq<char>> {
    rs.map_values(|r: (usize, usize)| t.subrange(r.0 as int, r.1 as int))
}

/// The ranges of positions of the pieces of `t` between occurrences of
/// `sep`.
pub fn split_ranges(t: &str, sep: char) -> (r: Vec<(usize, usize)>)
    ensures
        texts(t@, r@) == pieces(t@, sep),
        forall|k: int| 0 <= k < r@.len() ==> (#[trigger] r@[k]).0 <= r@[k].1 <= t@.len(),
{
    let n = t.unicode_len();
    let mut out: Vec<(usize, usize)> = Vec::new();
    let mut start: usize = 0;
    let mut j: usize = 0;
    proof {
        assert(t@.take(0) =~= Seq::<char>::empty());
        assert(texts(t@, out@) =~= Seq::<Seq<char>>::empty());
        assert(t@.subrange(0, 0) =~= Seq::<char>::empty());
        assert(pieces(t@.take(0), sep) =~= texts(t@, out@).push(t@.subrange(0, 0)));
    }
    while j < n
        invariant
            n == t@.len(),
            start <= j <= n,
            forall|k: int| 0 <= k < out@.len() ==> (#[trigger] out@[k]).0 <= out@[k].1 <= j,
            pieces(t@.take(j as int), sep) == texts(t@, out@).push(t@.subrange(start as int, j as int)),
        decreases n - j,
    {
        let c = t.get_char(j);
        let ghost pre = t@.take(j as int);
        proof {
            assert(t@.take(j + 1).drop_last() =~= pre);
            assert(t@.take(j + 1).last() == c);
        }
        let ghost before = out@;
        if c == sep {
            out.push((start, j));
            proof {
                assert(texts(t@, out@) =~= texts(t@, before).push(t@.subrange(start as int, j as int)));
                assert(t@.subrange(j + 1, j + 1) =~= Seq::<char>::empty());
                assert(pieces(t@.take(j + 1), sep) =~= texts(t@, out@).push(
                    t@.subrange(j + 1, j + 1),
                ));
            }
            start = j + 1;
        } else {
            proof {
                assert(t@.subrange(start as int, j + 1) =~= t@.subrange(start as int, j as int).push(c));
                assert(pieces(t@.take(j + 1), sep) =~= texts(t@, out@).push(
                    t@.subrange(start as int, j + 1),
                ));
            }
        }
        j += 1;
    }
    let ghost before = out@;
    out.push((start, n));
    proof {
        assert(t@.take(n as int) =~= t@);
        assert(texts(t@, out@) =~= texts(t@, before).push(t@.subrange(start as int, n as int)));
    }
    out
}

/// The byte count that byte-unit reads in `s` (`"32MB"`, `"10KiB"`, ...).
pub uninterp spec fn byte_size_of(s: Seq<char>) -> Option<u64>;

/// Relies on `byte_unit::Byte::parse_str` (with the case of units ignored)
/// and `Byte::as_u64`: the size, if `s` holds one.
#[verifier::external_body]
fn parse_byte_size(s: &str) -> (r: Option<u64>)
    ensures
        r == byte_size_of(s@),
{
    byte_unit::Byte::parse_str(s, true).ok().map(|b| b.as_u64())
}

/// The options `o` after one `key=value` item (a bare value is a level).
pub open spec fn apply_item(o: CoderOptions, item: Seq<char>) -> Result<CoderOptions, CodecError> {
    let kv = pieces(item, '=');
    let (key, value) = if kv.len() == 1 {
        ("level"@, item)
    } else {
        (kv[0], kv[1])
    };
    if kv.len() > 2 {
        Err(CodecError::UnknownOption)
    } else if key == "level"@ {
        match level_of(o.codec, value) {
            Some(l) => Ok(CoderOptions { level: l, ..o }),
            None => Err(CodecError::InvalidLevel),
        }
    } else if key == "minsize"@ {
        match byte_size_of(value) {
            Some(n) => Ok(CoderOptions { minsize: n, ..o }),
            None => Err(CodecError::InvalidSize),
        }
    } else {
        Err(CodecError::UnknownOption)
    }
}

/// The options `o` after the items, in order; the first failing item
/// decides the error.
pub open spec fn apply_items(o: CoderOptions, items: Seq<Seq<char>>) -> Result<
    CoderOptions,
    CodecError,
>
    decreases items.len(),
{
    if items.len() == 0 {
        Ok(o)
    } else {
        match apply_items(o, items.drop_last()) {
            Ok(p) => apply_item(p, items.last()),
            Err(e) => Err(e),
        }
    }
}

/// The default options of codec `c`.
pub open spec fn default_options(c: Codec) -> CoderOptions {
    CoderOptions { codec: c, level: level_bounds(c).2, minsize: 0 }
}

/// What `"<name>[:<k>=<v>;...]"` denotes.
pub open spec fn options_of(t: Seq<char>) -> Result<CoderOptions, CodecError> {
    let parts = pieces(t, ':');
    match codec_named(parts[0]) {
        None => Err(CodecError::UnknownCodec),
        Some(c) => if parts.len() == 1 {
            Ok(default_options(c))
        } else if parts.len() == 2 {
            apply_items(default_options(c), pieces(parts[1], ';'))
        } else {
            Err(CodecError::UnknownOption)
        },
    }
}

fn apply_option(o: CoderOptions, item: &str) -> (r: Result<CoderOptions, CodecError>)
    ensures
        r == apply_item(o, item@),
{
    let kv = split_ranges(item, '=');
    proof {
        lemma_pieces_nonempty(item@, '=');
    }
    if kv.len() > 2 {
        return Err(CodecError::UnknownOption);
    }
    let bare = kv.len() == 1;
    let (key, value): (&str, &str) = if bare {
        ("level", item)
    } else {
        assert(texts(item@, kv@)[0] == item@.subrange(kv@[0].0 as int, kv@[0].1 as int));
        assert(texts(item@, kv@)[1] == item@.subrange(kv@[1].0 as int, kv@[1].1 as int));
        (item.substring_char(kv[0].0, kv[0].1), item.substring_char(kv[1].0, kv[1].1))
    };
    if str_eq(key, "level") {
        match parse_level(o.codec, value) {
            Some(l) => Ok(CoderOptions { level: l, ..o }),
            None => Err(CodecError::InvalidLevel),
        }
    } else if str_eq(key, "minsize") {
        match parse_byte_size(value) {
            Some(n) => Ok(CoderOptions { minsize: n, ..o }),
            None => Err(CodecError::InvalidSize),
        }
    } else {
        Err(CodecError::UnknownOption)
    }
}

impl CoderOptions {
    /// Parses `"<name>[:<k>=<v>;...]"`, e.g. `"brotli:6"` or
    /// `"zstd:level=3;minsize=32MB"`. Options not given keep the codec's
    /// default level and no minimum size.
    pub fn parse(t: &str) -> (r: Result<CoderOptions, CodecError>)
        ensures
            r == options_of(t@),
    {
        let parts = split_ranges(t, ':');
        proof {
            lemma_pieces_nonempty(t@, ':');
            assert(texts(t@, parts@)[0] == t@.subrange(parts@[0].0 as int, parts@[0].1 as int));
        }
        let name = t.substring_char(parts[0].0, parts[0].1);
        let codec = match Codec::from_name(name) {
            None => {
                return Err(CodecError::UnknownCodec);
            },
            Some(c) => c,
        };
        let (_, _, level) = codec.level_bounds();
        let defaults = CoderOptions { codec, level, minsize: 0 };
        if parts.len() == 1 {
            return Ok(defaults);
        }
        if parts.len() > 2 {
            return Err(CodecError::UnknownOption);
        }
        assert(texts(t@, parts@)[1] == t@.subrange(parts@[1].0 as int, parts@[1].1 as int));
        let rest = t.substring_char(parts[1].0, parts[1].1);
        let items = split_ranges(rest, ';');
        let ghost all = pieces(rest@, ';');
        let mut o = defaults;
        let mut k: usize = 0;
        assert(options_of(t@) == apply_items(default_options(codec), all));
        assert(all.take(0) =~= Seq::<Seq<char>>::empty());
        while k < items.len()
            invariant
                options_of(t@) == apply_items(default_options(codec), all),
                k <= items@.len(),
                texts(rest@, items@) == all,
                forall|m: int| 0 <= m < items@.len() ==> (#[trigger] items@[m]).0 <= items@[m].1 <= rest@.len(),
                apply_items(default_options(codec), all.take(k as int)) == Ok::<CoderOptions, CodecError>(o),
            decreases items@.len() - k,
        {
            assert(all[k as int] == rest@.subrange(items@[k as int].0 as int, items@[k as int].1 as int));
            let item = rest.substring_char(items[k].0, items[k].1);
            proof {
                assert(all.take(k + 1).drop_last() =~= all.take(k as int));
                assert(all.take(k + 1).last() == all[k as int]);
            }
            match apply_option(o, item) {
                Ok(p) => {
                    o = p;
                },
                Err(e) => {
                    proof {
                        assert(apply_items(default_options(codec), all.take(k + 1)) == Err::<
                            CoderOptions,
                            CodecError,
                        >(e));
                        lemma_apply_items_err(default_options(codec), all, k as int + 1);
                    }
                    return Err(e);
                },
            }
            k += 1;
        }
        assert(all.take(items@.len() as int) =~= all);
        Ok(o)
    }
}

/// Once an item fails, the items after it do not change the outcome.
proof fn lemma_apply_items_err(o: CoderOptions, items: Seq<Seq<char>>, k: int)
    requires
        0 <= k <= items.len(),
        apply_items(o, items.take(k)) is Err,
    ensures
        apply_items(o, items) == apply_items(o, items.take(k)),
    decreases items.len() - k,
{
    if k < items.len() {
        assert(items.take(k + 1).drop_last() =~= items.take(k));
        lemma_apply_items_err(o, items, k + 1);
    } else {
        assert(items.take(k) =~= items);
    }
}

/// What brotli's encoder writes for `data` at quality `quality`, or
/// `None` when it reports an error.
pub uninterp spec fn brotli_compressed(data: Seq<u8>, quality: u32) -> Option<Seq<u8>>;

/// Relies on `brotli::BrotliCompress`: encodes `data` at quality
/// `quality` with the encoder's other parameters at their defaults.
#[verifier::external_body]
fn brotli_compress(data: &Vec<u8>, quality: u32) -> (r: Option<Vec<u8>>)
    ensures
        r is None <==> brotli_compressed(data@, quality) is None,
        r matches Some(v) ==> brotli_compressed(data@, quality) == Some(v@),
{
    let params = brotli::enc::BrotliEncoderParams { quality: quality as i32, ..Default::default() };
    let mut out: Vec<u8> = Vec::new();
    brotli::BrotliCompress(&mut data.as_slice(), &mut out, &params).ok().map(|_| out)
}

/// What brotli's decoder reads from `data`, or `None` when `data` is not a
/// complete brotli stream.
pub uninterp spec fn brotli_decompressed(data: Seq<u8>) -> Option<Seq<u8>>;

/// Relies on `brotli::BrotliDecompress`: decodes a whole brotli stream.
#[verifier::external_body]
fn brotli_decompress(data: &Vec<u8>) -> (r: Option<Vec<u8>>)
    ensures
        r is None <==> brotli_decompressed(data@) is None,
        r matches Some(v) ==> brotli_decompressed(data@) == Some(v@),
{
    let mut out: Vec<u8> = Vec::new();
    brotli::BrotliDecompress(&mut data.as_slice(), &mut out).ok().map(|_| out)
}

/// The encoding of `data` with options `o`, when `o` can encode it: its
/// minimum size is met and the encoder succeeds. Only `raw` and `brotli`
/// have an encoder here.
pub open spec fn candidate_encoding(o: CoderOptions, data: Seq<u8>) -> Option<Seq<u8>> {
    if o.minsize > data.len() {
        None
    } else {
        match o.codec {
            Codec::Raw => Some(data),
            Codec::Brotli => brotli_compressed(data, o.level),
            _ => None,
        }
    }
}

/// The bytes of one operation as stored in a package, with the codec that
/// decodes them.
pub struct Encoded {
    pub codec: Codec,
    pub bytes: Vec<u8>,
}

/// Whether two byte strings are equal.
pub fn bytes_equal(a: &Vec<u8>, b: &Vec<u8>) -> (r: bool)
    ensures
        r == (a@ == b@),
{
    if a.len() != b.len() {
        return false;
    }
    let mut i: usize = 0;
    while i < a.len()
        invariant
            a@.len() == b@.len(),
            i <= a@.len(),
            forall|k: int| 0 <= k < i ==> a@[k] == b@[k],
        decreases a@.len() - i,
    {
        if a[i] != b[i] {
            return false;
        }
        i += 1;
    }
    assert(a@ =~= b@);
    true
}

/// A copy of `data`.
pub fn copy_bytes(data: &Vec<u8>) -> (r: Vec<u8>)
    ensures
        r@ == data@,
{
    let mut r: Vec<u8> = Vec::new();
    let mut i: usize = 0;
    while i < data.len()
        invariant
            i <= data@.len(),
            r@ == data@.take(i as int),
        decreases data@.len() - i,
    {
        r.push(data[i]);
        i += 1;
        assert(r@ =~= data@.take(i as int));
    }
    assert(data@.take(data@.len() as int) =~= data@);
    r
}

/// The encoding kept after trying the candidates in order: `raw` first,
/// then each candidate that can encode `data` and is strictly shorter than
/// the one kept so far.
pub open spec fn best_of(data: Seq<u8>, cands: Seq<CoderOptions>) -> (Codec, Seq<u8>)
    decreases cands.len(),
{
    if cands.len() == 0 {
        (Codec::Raw, data)
    } else {
        let kept = best_of(data, cands.drop_last());
        match candidate_encoding(cands.last(), data) {
            Some(v) => if v.len() < kept.1.len() {
                (cands.last().codec, v)
            } else {
                kept
            },
            None => kept,
        }
    }
}

/// The kept encoding is no longer than `raw` nor than any candidate that
/// can encode `data`.
pub proof fn lemma_best_is_shortest(data: Seq<u8>, cands: Seq<CoderOptions>)
    ensures
        best_of(data, cands).1.len() <= data.len(),
        forall|i: int|
            0 <= i < cands.len() && (#[trigger] candidate_encoding(cands[i], data)) is Some
                ==> best_of(data, cands).1.len() <= candidate_encoding(cands[i], data)->Some_0.len(),
    decreases cands.len(),
{
    if cands.len() > 0 {
        let p = cands.drop_last();
        lemma_best_is_shortest(data, p);
        assert forall|i: int|
            0 <= i < cands.len() && (#[trigger] candidate_encoding(cands[i], data)) is Some
                implies best_of(data, cands).1.len() <= candidate_encoding(cands[i], data)->Some_0.len() by {
            if i < cands.len() - 1 {
                assert(cands[i] == p[i]);
            }
        }
    }
}

/// Encoding is deterministic: two encodings of the same bytes with the same
/// candidates are identical.
pub proof fn lemma_encoding_deterministic(
    data: Seq<u8>,
    cands: Seq<CoderOptions>,
    first: (Codec, Seq<u8>),
    second: (Codec, Seq<u8>),
)
    requires
        first == best_of(data, cands),
        second == best_of(data, cands),
    ensures
        first == second,
{
}

/// The shortest encoding of `data` among `raw` and the candidates that can
/// encode it; on equal lengths the earlier one (`raw` first) is kept.
pub fn encode_best(data: &Vec<u8>, candidates: &Vec<CoderOptions>) -> (r: Encoded)
    ensures
        (r.codec, r.bytes@) == best_of(data@, candidates@),
        r.bytes@.len() <= data@.len(),
        forall|i: int|
            0 <= i < candidates@.len() && (#[trigger] candidate_encoding(candidates@[i], data@)) is Some
                ==> r.bytes@.len() <= candidate_encoding(candidates@[i], data@)->Some_0.len(),
{
    let mut best = Encoded { codec: Codec::Raw, bytes: copy_bytes(data) };
    let mut i: usize = 0;
    assert(candidates@.take(0) =~= Seq::<CoderOptions>::empty());
    while i < candidates.len()
        invariant
            i <= candidates@.len(),
            (best.codec, best.bytes@) == best_of(data@, candidates@.take(i as int)),
        decreases candidates@.len() - i,
    {
        let o = candidates[i];
        proof {
            assert(candidates@.take(i + 1).drop_last() =~= candidates@.take(i as int));
            assert(candidates@.take(i + 1).last() == o);
        }
        let enc: Option<Vec<u8>> = if o.minsize > data.len() as u64 {
            None
        } else {
            match o.codec {
                Codec::Raw => Some(copy_bytes(data)),
                Codec::Brotli => brotli_compress(data, o.level),
                _ => None,
            }
        };
        assert(enc matches Some(v) ==> candidate_encoding(o, data@) == Some(v@));
        assert(enc is None ==> candidate_encoding(o, data@) is None);
        match enc {
            Some(v) => {
                if v.len() < best.bytes.len() {
                    best = Encoded { codec: o.codec, bytes: v };
                }
            },
            None => {},
        }
        i += 1;
    }
    proof {
        assert(candidates@.take(candidates@.len() as int) =~= candidates@);
        lemma_best_is_shortest(data@, candidates@);
    }
    best
}

/// The SHA-256 digest of `data`.
pub uninterp spec fn sha256_of(data: Seq<u8>) -> Seq<u8>;

/// Relies on `sha2::Sha256::digest`: the 32-byte SHA-256 digest of `data`.
#[verifier::external_body]
pub(crate) fn sha256(data: &[u8]) -> (r: Vec<u8>)
    ensures
        r@ == sha256_of(data@),
        r@.len() == 32,
{
    <sha2::Sha256 as sha2::Digest>::digest(data).to_vec()
}

/// The SHA-256 hash that packages record for `data`.
pub fn hash_bytes(data: &[u8]) -> (r: Vec<u8>)
    ensures
        r@ == sha256_of(data@),
        r@.len() == 32,
{
    sha256(data)
}

/// Decodes the bytes of one operation stored with `codec`: `raw` bytes are
/// the data, `brotli` bytes must be a complete stream. Codecs without a
/// decoder here give `None`.
pub fn decode(codec: Codec, bytes: &Vec<u8>) -> (r: Option<Vec<u8>>)
    ensures
        codec == Codec::Raw ==> (r matches Some(v) && v@ == bytes@),
        codec == Codec::Brotli ==> (r is None <==> brotli_decompressed(bytes@) is None),
        codec == Codec::Brotli ==> (r matches Some(v) ==> brotli_decompressed(bytes@) == Some(v@)),
        codec != Codec::Raw && codec != Codec::Brotli ==> r is None,
{
    match codec {
        Codec::Raw => Some(copy_bytes(bytes)),
        Codec::Brotli => brotli_decompress(bytes),
        _ => None,
    }
}

} // verus!
