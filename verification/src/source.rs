//! Turning a glTF document's plain contents into converter source geometry:
//! primitive topology, material palette and styles, and buffer sources.
//! (Positions and transforms are floating-point work done by the caller.)

use vstd::prelude::*;
use vstd::utf8::encode_utf8;
use base64::Engine;

verus! {

// ---------------------------------------------------------------- primitives

/// How a glTF primitive's indices are assembled (glTF `mode`).
#[derive(Debug, Clone, Copy, PartialEq, Eq, Structural)]
pub enum PrimitiveMode {
    Points,
    Lines,
    LineLoop,
    LineStrip,
    Triangles,
    TriangleStrip,
    TriangleFan,
}

/// What a primitive contributes: triangle corners (three per triangle) and
/// line segments, as indices into the primitive's positions.
pub struct Assembled {
    pub triangle_corners: Vec<u32>,
    pub lines: Vec<(u32, u32)>,
}

/// Segments of a line strip over `idx`: consecutive index pairs.
pub open spec fn strip_lines(idx: Seq<u32>) -> Seq<(u32, u32)> {
    Seq::new(if idx.len() >= 2 { (idx.len() - 1) as nat } else { 0 }, |i: int| (idx[i], idx[i + 1]))
}

/// Segments a primitive contributes.
pub open spec fn assembled_lines(mode: PrimitiveMode, idx: Seq<u32>) -> Seq<(u32, u32)> {
    match mode {
        PrimitiveMode::Lines => Seq::new((idx.len() / 2) as nat, |i: int| (idx[2 * i], idx[2 * i + 1])),
        PrimitiveMode::LineStrip => strip_lines(idx),
        PrimitiveMode::LineLoop => if idx.len() > 2 {
            strip_lines(idx).push((idx[idx.len() - 1], idx[0]))
        } else {
            strip_lines(idx)
        },
        _ => Seq::empty(),
    }
}

/// Triangle corners a primitive contributes.
pub open spec fn assembled_corners(mode: PrimitiveMode, idx: Seq<u32>) -> Seq<u32> {
    if mode == PrimitiveMode::Triangles {
        idx.subrange(0, 3 * (idx.len() as int / 3))
    } else {
        Seq::empty()
    }
}

/// What each mode contributes, index by index: whole triangles; pairs;
/// consecutive pairs of a strip; a loop's consecutive pairs closed back to
/// its first index once it has three or more; nothing for other modes.
pub proof fn lemma_assembled_segments(mode: PrimitiveMode, idx: Seq<u32>)
    ensures
        mode == PrimitiveMode::Triangles ==> assembled_corners(mode, idx) == idx.subrange(0, 3 * (idx.len() / 3) as int),
        mode != PrimitiveMode::Triangles ==> assembled_corners(mode, idx).len() == 0,
        !(mode == PrimitiveMode::Lines || mode == PrimitiveMode::LineStrip || mode == PrimitiveMode::LineLoop)
            ==> assembled_lines(mode, idx).len() == 0,
        mode == PrimitiveMode::Lines ==> {
            &&& assembled_lines(mode, idx).len() == idx.len() / 2
            &&& forall|k: int| 0 <= k < idx.len() / 2 ==> #[trigger] assembled_lines(mode, idx)[k] == (idx[2 * k], idx[2 * k + 1])
        },
        (mode == PrimitiveMode::LineStrip || (mode == PrimitiveMode::LineLoop && idx.len() < 3)) ==> {
            &&& assembled_lines(mode, idx).len() == if idx.len() >= 2 { idx.len() - 1 } else { 0 }
            &&& forall|k: int| 0 <= k < idx.len() - 1 ==> #[trigger] assembled_lines(mode, idx)[k] == (idx[k], idx[k + 1])
        },
        (mode == PrimitiveMode::LineLoop && idx.len() >= 3) ==> {
            &&& assembled_lines(mode, idx).len() == idx.len()
            &&& forall|k: int| 0 <= k < idx.len() - 1 ==> #[trigger] assembled_lines(mode, idx)[k] == (idx[k], idx[k + 1])
            &&& assembled_lines(mode, idx)[idx.len() - 1] == (idx[idx.len() - 1], idx[0])
        },
{
    if mode == PrimitiveMode::LineLoop && idx.len() >= 3 {
        let strip = strip_lines(idx);
        assert forall|k: int| 0 <= k < idx.len() - 1 implies #[trigger] assembled_lines(mode, idx)[k] == (idx[k], idx[k + 1]) by {
            assert(assembled_lines(mode, idx)[k] == strip[k]);
        }
    }
}

/// Assemble a primitive: triangles in whole triples; lines in pairs; a line
/// strip as consecutive pairs; a line loop as a strip closed back to its
/// first index when it has more than two. Other modes contribute nothing.
pub fn assemble_primitive(mode: PrimitiveMode, indices: &Vec<u32>) -> (a: Assembled)
    ensures
        a.triangle_corners@ == assembled_corners(mode, indices@),
        a.lines@ == assembled_lines(mode, indices@),
        (mode == PrimitiveMode::LineLoop && indices@.len() >= 3) ==> {
            &&& a.lines@.len() == indices@.len()
            &&& a.lines@[indices@.len() - 1] == (indices@[indices@.len() - 1], indices@[0])
        },
{
    let n = indices.len();
    let mut triangle_corners: Vec<u32> = Vec::new();
    let mut lines: Vec<(u32, u32)> = Vec::new();
    match mode {
        PrimitiveMode::Triangles => {
            let whole = n / 3 * 3;
            assert(whole == 3 * (n as int / 3) && whole <= n) by (nonlinear_arith)
                requires whole == n / 3 * 3;
            let mut i: usize = 0;
            while i < whole
                invariant
                    n == indices@.len(),
                    whole <= n,
                    i <= whole,
                    triangle_corners@ == indices@.subrange(0, i as int),
                decreases whole - i,
            {
                triangle_corners.push(indices[i]);
                i += 1;
            }
        }
        PrimitiveMode::Lines => {
            let pairs = n / 2;
            let mut i: usize = 0;
            while i < pairs
                invariant
                    n == indices@.len(),
                    pairs == n / 2,
                    i <= pairs,
                    lines@.len() == i,
                    forall|j: int| 0 <= j < i ==> #[trigger] lines@[j] == (indices@[2 * j], indices@[2 * j + 1]),
                decreases pairs - i,
            {
                lines.push((indices[2 * i], indices[2 * i + 1]));
                i += 1;
            }
            assert(lines@ == assembled_lines(mode, indices@));
        }
        PrimitiveMode::LineStrip | PrimitiveMode::LineLoop => {
            let mut i: usize = 1;
            while i < n
                invariant
                    n == indices@.len(),
                    1 <= i,
                    i <= n || i == 1,
                    lines@.len() == i - 1,
                    forall|j: int| 0 <= j < i - 1 ==> #[trigger] lines@[j] == (indices@[j], indices@[j + 1]),
                decreases n - i,
            {
                lines.push((indices[i - 1], indices[i]));
                i += 1;
            }
            assert(lines@.len() == strip_lines(indices@).len());
            assert forall|j: int| 0 <= j < lines@.len() implies lines@[j] == #[trigger] strip_lines(indices@)[j] by {
                assert(lines@[j] == (indices@[j], indices@[j + 1]));
            }
            assert(lines@ =~= strip_lines(indices@));
            if mode == PrimitiveMode::LineLoop && n > 2 {
                lines.push((indices[n - 1], indices[0]));
            }
        }
        _ => {}
    }
    proof {
        if mode != PrimitiveMode::Triangles {
            assert(triangle_corners@ == assembled_corners(mode, indices@));
        }
    }
    proof {
        lemma_assembled_segments(mode, indices@);
    }
    Assembled { triangle_corners, lines }
}

/// The implicit index list of a non-indexed primitive: `0..count`.
pub fn sequential_indices(count: u32) -> (idx: Vec<u32>)
    ensures
        idx@.len() == count,
        forall|i: int| 0 <= i < count ==> #[trigger] idx@[i] == i,
{
    let mut idx: Vec<u32> = Vec::new();
    let mut i: u32 = 0;
    while i < count
        invariant
            i <= count,
            idx@.len() == i,
            forall|j: int| 0 <= j < i ==> #[trigger] idx@[j] == j,
        decreases count - i,
    {
        idx.push(i);
        i += 1;
    }
    idx
}

// ---------------------------------------------------------------- palette

/// The palette index is a byte: at most this many distinct colors.
pub const MAX_PALETTE: usize = 255;

/// A color quantized for dedup (channels in 1/1023 steps).
pub type ColorKey = (u16, u16, u16);

/// The palette under construction: the quantized key of each entry, in
/// order of first use.
pub struct PaletteKeys {
    keys: Vec<ColorKey>,
}

/// Interning a color when the palette is already full and the color is new.
#[derive(Debug, Clone, Copy, PartialEq, Eq, Structural)]
pub struct PaletteFull;

impl PaletteKeys {
    pub closed spec fn keys(&self) -> Seq<ColorKey> {
        self.keys@
    }

    /// Entries are distinct and fit a palette byte.
    pub closed spec fn wf(&self) -> bool {
        &&& self.keys@.len() <= MAX_PALETTE
        &&& self.keys@.no_duplicates()
    }

    pub fn new() -> (p: Self)
        ensures
            p.wf(),
            p.keys().len() == 0,
    {
        PaletteKeys { keys: Vec::new() }
    }

    /// Register a color: the index of its entry if it is already there;
    /// otherwise a new entry at the end, unless the palette is full.
    pub fn intern(&mut self, key: ColorKey) -> (r: Result<u8, PaletteFull>)
        requires
            old(self).wf(),
        ensures
            final(self).wf(),
            old(self).keys().contains(key) ==> (final(self).keys() == old(self).keys()
                && (r matches Ok(i) && i < old(self).keys().len() && old(self).keys()[i as int] == key)),
            !old(self).keys().contains(key) && old(self).keys().len() >= MAX_PALETTE ==> final(self).keys()
                == old(self).keys() && r is Err,
            !old(self).keys().contains(key) && old(self).keys().len() < MAX_PALETTE ==> final(self).keys()
                == old(self).keys().push(key) && r == Ok::<u8, PaletteFull>(old(self).keys().len() as u8),
    {
        let n = self.keys.len();
        let mut i: usize = 0;
        while i < n
            invariant
                n == self.keys@.len(),
                n <= MAX_PALETTE,
                i <= n,
                self.keys@ == old(self).keys@,
                self.keys@.no_duplicates(),
                forall|j: int| 0 <= j < i ==> self.keys@[j] != key,
            decreases n - i,
        {
            let k = self.keys[i];
            if k.0 == key.0 && k.1 == key.1 && k.2 == key.2 {
                assert(self.keys@[i as int] == key);
                return Ok(i as u8);
            }
            i += 1;
        }
        if n >= MAX_PALETTE {
            return Err(PaletteFull);
        }
        let ghost before = self.keys@;
        self.keys.push(key);
        proof {
            assert forall|a: int, b: int| 0 <= a < self.keys@.len() && 0 <= b < self.keys@.len() && a != b
                implies self.keys@[a] != self.keys@[b] by {
                if a < before.len() && b < before.len() {
                    assert(before.no_duplicates());
                }
            }
        }
        Ok(n as u8)
    }
}

// ---------------------------------------------------------------- styles

/// Edge style bit: dashed.
pub const STYLE_DASH: u8 = 1;
/// Edge style bit: flickering.
pub const STYLE_FLICKER: u8 = 2;

pub open spec fn ascii_lower(b: u8) -> u8 {
    if 65 <= b <= 90 { (b + 32) as u8 } else { b }
}

pub open spec fn lowered(s: Seq<u8>) -> Seq<u8> {
    s.map_values(|b: u8| ascii_lower(b))
}

/// `pat` occurs in `s` starting at `p`.
pub open spec fn occurs_at(s: Seq<u8>, pat: Seq<u8>, p: int) -> bool {
    0 <= p && p + pat.len() <= s.len() && s.subrange(p, p + pat.len()) == pat
}

pub open spec fn contains_bytes(s: Seq<u8>, pat: Seq<u8>) -> bool {
    exists|p: int| occurs_at(s, pat, p)
}

/// The first position where `pat` occurs in `s`, if any.
pub open spec fn first_occurrence_at(s: Seq<u8>, pat: Seq<u8>, p: int) -> bool {
    occurs_at(s, pat, p) && forall|q: int| 0 <= q < p ==> !occurs_at(s, pat, q)
}

pub open spec fn dash_word() -> Seq<u8> {
    seq![100u8, 97, 115, 104]
}

pub open spec fn flicker_word() -> Seq<u8> {
    seq![102u8, 108, 105, 99, 107, 101, 114]
}

/// Style bits named by a material: `dash` / `flicker` anywhere in the
/// name, ignoring ASCII case.
pub open spec fn material_style_spec(name: Seq<u8>) -> u8 {
    (if contains_bytes(lowered(name), dash_word()) { STYLE_DASH } else { 0u8 })
        | (if contains_bytes(lowered(name), flicker_word()) { STYLE_FLICKER } else { 0u8 })
}

/// Two bytes are the same letter up to ASCII case (or simply equal).
pub open spec fn same_ignoring_ascii_case(a: u8, b: u8) -> bool {
    a == b || (65 <= a <= 90 && b == a + 32) || (65 <= b <= 90 && a == b + 32)
}

/// Material styles ignore ASCII case: names that differ only in the case of
/// their ASCII letters get the same style.
pub proof fn lemma_material_style_ignores_case(n1: Seq<u8>, n2: Seq<u8>)
    requires
        n1.len() == n2.len(),
        forall|i: int| 0 <= i < n1.len() ==> same_ignoring_ascii_case(#[trigger] n1[i], n2[i]),
    ensures
        material_style_spec(n1) == material_style_spec(n2),
{
    assert(lowered(n1) =~= lowered(n2));
}

/// A name without ASCII capitals is styled by plain substring search:
/// dashed when it contains `dash`, flickering when it contains `flicker`.
pub proof fn lemma_lowercase_material_style(name: Seq<u8>)
    requires
        forall|i: int| 0 <= i < name.len() ==> !(65 <= #[trigger] name[i] <= 90),
    ensures
        material_style_spec(name) == (if contains_bytes(name, seq![100u8, 97, 115, 104]) { STYLE_DASH } else { 0u8 })
            | (if contains_bytes(name, seq![102u8, 108, 105, 99, 107, 101, 114]) { STYLE_FLICKER } else { 0u8 }),
{
    assert(lowered(name) =~= name);
}

fn lower_bytes(s: &[u8]) -> (out: Vec<u8>)
    ensures
        out@ == lowered(s@),
{
    let mut out: Vec<u8> = Vec::new();
    let n = s.len();
    let mut i: usize = 0;
    while i < n
        invariant
            n == s@.len(),
            i <= n,
            out@ == lowered(s@.subrange(0, i as int)),
        decreases n - i,
    {
        let b = s[i];
        out.push(if 65 <= b && b <= 90 { b + 32 } else { b });
        assert(lowered(s@.subrange(0, i + 1)) == lowered(s@.subrange(0, i as int)).push(ascii_lower(b)));
        i += 1;
    }
    assert(s@.subrange(0, n as int) == s@);
    out
}

/// Does `pat` occur at `p` in `s`?
fn matches_at(s: &[u8], pat: &[u8], p: usize) -> (m: bool)
    requires
        p + pat@.len() <= s@.len(),
    ensures
        m == occurs_at(s@, pat@, p as int),
{
    let n = s.len();
    let k = pat.len();
    let mut j: usize = 0;
    while j < k
        invariant
            k == pat@.len(),
            n == s@.len(),
            p + k <= n,
            j <= k,
            forall|t: int| 0 <= t < j ==> s@[p + t] == pat@[t],
        decreases k - j,
    {
        if s[p + j] != pat[j] {
            assert(s@.subrange(p as int, p + k)[j as int] != pat@[j as int]);
            return false;
        }
        j += 1;
    }
    assert(s@.subrange(p as int, p + k) == pat@);
    true
}

/// The first position where `pat` occurs in `s`.
fn find_bytes(s: &[u8], pat: &[u8]) -> (r: Option<usize>)
    ensures
        r matches Some(p) ==> first_occurrence_at(s@, pat@, p as int),
        r is None ==> !contains_bytes(s@, pat@),
{
    let n = s.len();
    let k = pat.len();
    if k > n {
        return None;
    }
    if k == 0 {
        assert(s@.subrange(0, 0) =~= pat@);
        return Some(0);
    }
    let mut p: usize = 0;
    while p <= n - k
        invariant
            n == s@.len(),
            k == pat@.len(),
            0 < k <= n,
            p <= n - k + 1,
            forall|q: int| 0 <= q < p ==> !occurs_at(s@, pat@, q),
        decreases n - k + 1 - p,
    {
        if matches_at(s, pat, p) {
            return Some(p);
        }
        p += 1;
    }
    None
}

/// Styling by material-name convention: a material named e.g. `trim-dash`
/// or `sign_flicker` marks its edges dashed / flickering. An unnamed
/// material is solid.
pub fn material_style(name: Option<&str>) -> (style: u8)
    ensures
        style == match name {
            Some(s) => material_style_spec(encode_utf8(s@)),
            None => 0u8,
        },
{
    match name {
        None => 0,
        Some(s) => {
            let lower = lower_bytes(s.as_bytes());
            let dash: [u8; 4] = [100, 97, 115, 104];
            let flicker: [u8; 7] = [102, 108, 105, 99, 107, 101, 114];
            assert(dash@ == dash_word());
            assert(flicker@ == flicker_word());
            let d = find_bytes(lower.as_slice(), &dash).is_some();
            let f = find_bytes(lower.as_slice(), &flicker).is_some();
            (if d { STYLE_DASH } else { 0 }) | (if f { STYLE_FLICKER } else { 0 })
        }
    }
}

// ---------------------------------------------------------------- buffers

/// Where a glTF buffer's bytes come from.
pub enum BufferSource {
    /// The binary chunk of a `.glb` file.
    Bin,
    /// A URI: an embedded `data:` URI or a path relative to the file.
    Uri(String),
}

/// Why a buffer could not be had without touching the filesystem.
#[derive(Debug, Clone, Copy, PartialEq, Eq, Structural)]
pub enum BufferError {
    /// A BIN buffer but no (more) binary chunk.
    MissingBinaryChunk,
    /// The embedded base64 payload does not decode.
    InvalidBase64(Base64Error),
}

/// What went wrong decoding base64.
#[derive(Debug, Clone, Copy, PartialEq, Eq, Structural)]
pub enum Base64Error {
    InvalidByte(usize, u8),
    InvalidLength(usize),
    InvalidLastSymbol(usize, u8),
    InvalidPadding,
}

/// One step of loading a buffer.
pub enum BufferStep {
    Bytes(Vec<u8>),
    /// A plain URI: read the file it names, relative to the glTF file.
    ReadFile,
    Failed(BufferError),
}

/// What the standard base64 alphabet (with canonical padding) decodes
/// `input` to; `None` when it is not valid base64.
pub uninterp spec fn base64_decoded(input: Seq<u8>) -> Option<Seq<u8>>;

/// Calls `base64::engine::general_purpose::STANDARD.decode`. Its result is
/// determined by the input bytes alone (named `base64_decoded`); the kind of
/// decode error is passed through unstated.
#[verifier::external_body]
fn decode_base64(input: &[u8]) -> (r: Result<Vec<u8>, Base64Error>)
    ensures
        match r {
            Ok(bytes) => base64_decoded(input@) == Some(bytes@),
            Err(_) => base64_decoded(input@) is None,
        },
{
    base64::engine::general_purpose::STANDARD.decode(input).map_err(|e| match e {
        base64::DecodeError::InvalidByte(at, byte) => Base64Error::InvalidByte(at, byte),
        base64::DecodeError::InvalidLength(len) => Base64Error::InvalidLength(len),
        base64::DecodeError::InvalidLastSymbol(at, byte) => Base64Error::InvalidLastSymbol(at, byte),
        base64::DecodeError::InvalidPadding => Base64Error::InvalidPadding,
    })
}

pub open spec fn data_prefix() -> Seq<u8> {
    seq![100u8, 97, 116, 97, 58]
}

pub open spec fn base64_marker() -> Seq<u8> {
    seq![98u8, 97, 115, 101, 54, 52, 44]
}

/// The payload of an embedded buffer URI: after a leading `data:`, the text
/// following the first `base64,`.
pub open spec fn data_uri_payload_spec(uri: Seq<u8>) -> Option<Seq<u8>> {
    if uri.len() >= 5 && uri.subrange(0, 5) == data_prefix() {
        let rest = uri.subrange(5, uri.len() as int);
        if contains_bytes(rest, base64_marker()) {
            let p = choose|p: int| first_occurrence_at(rest, base64_marker(), p);
            Some(rest.subrange(p + 7, rest.len() as int))
        } else {
            None
        }
    } else {
        None
    }
}

proof fn lemma_first_occurrence_unique(s: Seq<u8>, pat: Seq<u8>, p: int, q: int)
    requires
        first_occurrence_at(s, pat, p),
        first_occurrence_at(s, pat, q),
    ensures
        p == q,
{
}

/// A `data:` URI's payload is everything after the first `base64,` that
/// follows the `data:` scheme; a URI of another scheme has none.
pub proof fn lemma_data_uri_payload(head: Seq<u8>, payload: Seq<u8>, other: Seq<u8>)
    requires
        forall|q: int| 0 <= q < head.len() ==> !occurs_at(
            head + seq![98u8, 97, 115, 101, 54, 52, 44] + payload,
            seq![98u8, 97, 115, 101, 54, 52, 44],
            q,
        ),
        !(other.len() >= 5 && other.subrange(0, 5) == seq![100u8, 97, 116, 97, 58]),
    ensures
        data_uri_payload_spec(seq![100u8, 97, 116, 97, 58] + head + seq![98u8, 97, 115, 101, 54, 52, 44] + payload)
            == Some(payload),
        data_uri_payload_spec(other) is None,
{
    let marker = seq![98u8, 97, 115, 101, 54, 52, 44];
    let prefix = seq![100u8, 97, 116, 97, 58];
    let uri = prefix + head + marker + payload;
    let rest = head + marker + payload;
    assert(marker =~= base64_marker());
    assert(prefix =~= data_prefix());
    assert(uri.subrange(0, 5) =~= prefix);
    assert(uri.subrange(5, uri.len() as int) =~= rest);
    assert(rest.subrange(head.len() as int, head.len() as int + 7) =~= marker);
    assert(occurs_at(rest, marker, head.len() as int));
    assert(first_occurrence_at(rest, marker, head.len() as int));
    assert(contains_bytes(rest, marker));
    let p = choose|p: int| first_occurrence_at(rest, base64_marker(), p);
    lemma_first_occurrence_unique(rest, marker, p, head.len() as int);
    assert(rest.subrange(p + 7, rest.len() as int) =~= payload);
}

/// The embedded payload of a `data:` URI with a `base64,` marker.
pub fn data_uri_payload(uri: &[u8]) -> (payload: Option<Vec<u8>>)
    ensures
        match payload {
            Some(v) => data_uri_payload_spec(uri@) == Some(v@),
            None => data_uri_payload_spec(uri@) is None,
        },
{
    let n = uri.len();
    let prefix: [u8; 5] = [100, 97, 116, 97, 58];
    assert(prefix@ == data_prefix());
    if n < 5 || !matches_at(uri, &prefix, 0) {
        return None;
    }
    assert(uri@.subrange(0, 5) == data_prefix());
    let mut rest: Vec<u8> = Vec::new();
    let mut i: usize = 5;
    while i < n
        invariant
            n == uri@.len(),
            5 <= i <= n,
            rest@ == uri@.subrange(5, i as int),
        decreases n - i,
    {
        rest.push(uri[i]);
        i += 1;
    }
    let marker: [u8; 7] = [98, 97, 115, 101, 54, 52, 44];
    assert(marker@ == base64_marker());
    match find_bytes(rest.as_slice(), &marker) {
        None => None,
        Some(p) => {
            proof {
                let q = choose|q: int| first_occurrence_at(rest@, base64_marker(), q);
                lemma_first_occurrence_unique(rest@, base64_marker(), p as int, q);
            }
            let mut out: Vec<u8> = Vec::new();
            let m = rest.len();
            let mut j: usize = p + 7;
            while j < m
                invariant
                    m == rest@.len(),
                    p + 7 <= j <= m,
                    out@ == rest@.subrange(p + 7, j as int),
                decreases m - j,
            {
                out.push(rest[j]);
                j += 1;
            }
            Some(out)
        }
    }
}

/// The bytes of one buffer, given the file's binary chunk (taken by the
/// first BIN buffer). Embedded base64 is decoded; a plain URI is left for
/// the caller to read from disk.
pub fn resolve_buffer(source: &BufferSource, blob: &mut Option<Vec<u8>>) -> (step: BufferStep)
    ensures
        match source {
            BufferSource::Bin => {
                &&& *final(blob) == None::<Vec<u8>>
                &&& match *old(blob) {
                    Some(b) => (step matches BufferStep::Bytes(v) && v@ == b@),
                    None => step == BufferStep::Failed(BufferError::MissingBinaryChunk),
                }
            },
            BufferSource::Uri(u) => {
                &&& *final(blob) == *old(blob)
                &&& match data_uri_payload_spec(encode_utf8(u@)) {
                    Some(payload) => match base64_decoded(payload) {
                        Some(bytes) => (step matches BufferStep::Bytes(v) && v@ == bytes),
                        None => (step matches BufferStep::Failed(BufferError::InvalidBase64(_))),
                    },
                    None => step is ReadFile,
                }
            },
        },
{
    match source {
        BufferSource::Bin => match blob.take() {
            Some(b) => BufferStep::Bytes(b),
            None => BufferStep::Failed(BufferError::MissingBinaryChunk),
        },
        BufferSource::Uri(u) => match data_uri_payload(u.as_str().as_bytes()) {
            Some(payload) => match decode_base64(payload.as_slice()) {
                Ok(bytes) => BufferStep::Bytes(bytes),
                Err(e) => BufferStep::Failed(BufferError::InvalidBase64(e)),
            },
            None => BufferStep::ReadFile,
        },
    }
}

} // verus!
