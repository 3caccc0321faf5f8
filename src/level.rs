//! Levels: the inner payload's properties, markers and digest.
use crate::codec::{decode, decode_spec, decompression_fails_spec};
use crate::lines::{Lines, Timestamp};
use crate::text::{
    chars_of, decimal_parts, shifted_whole_capped, shifted_fraction_digit,
    lemma_shifted_all_digits, find_char, find_spec, parse_seconds_as_nanos,
    seconds_as_nanos, slice_of, split, split_spec, tenths_rounded, views, fraction_digits,
    whole_digits, tenths_magnitude, lemma_digits_value_nonneg, lemma_seconds_as_nanos_range,
    lemma_find_from_bounds, string_from_chars,
};
use vstd::prelude::*;
use vstd::utf8::encode_utf8;

verus! {

/// The MD5 digest of `data`.
pub uninterp spec fn md5_digest(data: Seq<u8>) -> Seq<u8>;

/// Relies on md5's `compute`: the 16-byte MD5 digest of the bytes, a function of them alone.
#[verifier::external_body]
fn md5_compute(data: &[u8]) -> (r: [u8; 16])
    ensures
        r@ == md5_digest(data@),
{
    md5::compute(data).0
}

/// The colour of a marker, from its code.
#[derive(Clone, Copy, Debug, PartialEq, Eq, Structural, Hash)]
pub enum MarkerColor {
    Orange,
    Yellow,
    Green,
}

/// The colour a marker code stands for: 8 orange, 9 yellow, 10 green; none for others.
pub open spec fn color_of_code(code: Option<int>) -> Option<MarkerColor> {
    match code {
        Some(c) => if c == 8 {
            Some(MarkerColor::Orange)
        } else if c == 9 {
            Some(MarkerColor::Yellow)
        } else if c == 10 {
            Some(MarkerColor::Green)
        } else {
            None
        },
        None => None,
    }
}

/// The header of an inner level's text: everything before the first `;`.
pub open spec fn header_of(text: Seq<char>) -> Seq<char> {
    text.take(find_spec(text, ';'))
}

/// The marker region: everything after the first `;`, or the whole text when there is none.
pub open spec fn marker_region(text: Seq<char>) -> Seq<char> {
    let d = find_spec(text, ';');
    if d < text.len() {
        text.skip(d + 1)
    } else {
        text
    }
}

/// The value of the first key/value pair from index `i` on whose key is `key`; a trailing
/// token without a partner is no pair.
pub open spec fn lookup_from(tokens: Seq<Seq<char>>, key: Seq<char>, i: int) -> Option<Seq<char>>
    decreases tokens.len() - i,
{
    if i < 0 || i + 1 >= tokens.len() {
        None
    } else if tokens[i] == key {
        Some(tokens[i + 1])
    } else {
        lookup_from(tokens, key, i + 2)
    }
}

/// The property `key` of an inner level's text: the header split on `,` is read as
/// alternating keys and values, and the first pair with that key gives the value.
pub open spec fn property_spec(text: Seq<char>, key: Seq<char>) -> Option<Seq<char>> {
    lookup_from(split_spec(header_of(text), seq![',']), key, 0)
}

/// The tokens of the marker region, split on `~`.
pub open spec fn marker_tokens(text: Seq<char>) -> Seq<Seq<char>> {
    split_spec(marker_region(text), seq!['~'])
}

/// The number of (timestamp, colour code) pairs in the marker region.
pub open spec fn marker_count(text: Seq<char>) -> int {
    marker_tokens(text).len() as int / 2
}

/// The marker of pair `i`: its colour and its time in nanoseconds, or `None` when either
/// token does not read or the code is no colour.
pub open spec fn marker_at(text: Seq<char>, i: int) -> Option<(MarkerColor, int)> {
    let t = marker_tokens(text);
    match (color_of_code(tenths_rounded(t[2 * i + 1])), seconds_as_nanos(t[2 * i])) {
        (Some(c), Some(n)) => Some((c, n)),
        _ => None,
    }
}

/// The times of the markers of colour `color` among the first `n` pairs.
pub open spec fn bucket_upto(text: Seq<char>, color: MarkerColor, n: int) -> Set<Timestamp> {
    Set::new(
        |t: Timestamp|
            exists|i: int| 0 <= i < n && #[trigger] marker_at(text, i) == Some((color, t.nanos as int)),
    )
}

/// The times of all markers of colour `color`.
pub open spec fn bucket(text: Seq<char>, color: MarkerColor) -> Set<Timestamp> {
    bucket_upto(text, color, marker_count(text))
}

/// The markers of an inner level, one set of times per colour.
#[derive(Debug)]
pub struct RawLinesTriplet {
    pub orange: Lines<Timestamp>,
    pub yellow: Lines<Timestamp>,
    pub green: Lines<Timestamp>,
}

impl RawLinesTriplet {
    /// All three sets are well formed.
    pub open spec fn wf(&self) -> bool {
        self.orange.wf() && self.yellow.wf() && self.green.wf()
    }

    /// Three empty sets.
    pub fn new() -> (r: RawLinesTriplet)
        ensures
            r.wf(),
            r.orange@ == Set::<Timestamp>::empty(),
            r.yellow@ == Set::<Timestamp>::empty(),
            r.green@ == Set::<Timestamp>::empty(),
    {
        RawLinesTriplet { orange: Lines::new(), yellow: Lines::new(), green: Lines::new() }
    }

    /// Whether no set holds a marker.
    pub fn is_empty(&self) -> (r: bool)
        ensures
            r == (self.orange@ == Set::<Timestamp>::empty() && self.yellow@ == Set::<Timestamp>::empty()
                && self.green@ == Set::<Timestamp>::empty()),
    {
        self.orange.empty() && self.yellow.empty() && self.green.empty()
    }
}

/// The decoded payload of one level.
#[derive(Debug)]
pub struct InnerLevel {
    raw: String,
    decompression_failed: bool,
}

/// The colour that a code token stands for: its value times ten, rounded, must be 8, 9 or 10.
pub fn parse_marker_color(token: &Vec<char>) -> (r: Option<MarkerColor>)
    ensures
        r == color_of_code(tenths_rounded(token@)),
{
    let parts = match decimal_parts(token) {
        Some(p) => p,
        None => return None,
    };
    let w = shifted_whole_capped(&parts.digits, parts.point, 1);
    let ghost f = fraction_digits(token@);
    proof {
        lemma_shifted_all_digits(parts.digits@, parts.point as int);
        lemma_digits_value_nonneg(whole_digits(token@));
        if f.len() > 0 {
            assert('0' <= f[0] <= '9');
        }
        if f.len() > 1 {
            assert('0' <= f[1] <= '9');
        }
    }
    if parts.negative || w > 1 {
        return None;
    }
    let tenth = shifted_fraction_digit(&parts.digits, parts.point, 0);
    let up: u64 = if shifted_fraction_digit(&parts.digits, parts.point, 1) >= 5 {
        1
    } else {
        0
    };
    let code = w * 10 + tenth + up;
    assert(code == tenths_magnitude(token@));
    if code == 8 {
        Some(MarkerColor::Orange)
    } else if code == 9 {
        Some(MarkerColor::Yellow)
    } else if code == 10 {
        Some(MarkerColor::Green)
    } else {
        None
    }
}

proof fn lemma_bucket_step(text: Seq<char>, color: MarkerColor, k: int)
    requires
        0 <= k,
    ensures
        bucket_upto(text, color, k + 1) == match marker_at(text, k) {
            Some((c, n)) => if c == color {
                bucket_upto(text, color, k).insert(Timestamp { nanos: n as i64 })
            } else {
                bucket_upto(text, color, k)
            },
            None => bucket_upto(text, color, k),
        },
        forall|t: Timestamp| #[trigger] bucket_upto(text, color, k).contains(t) ==> bucket_upto(text, color, k + 1).contains(t),
{
    let next = bucket_upto(text, color, k + 1);
    let prev = bucket_upto(text, color, k);
    match marker_at(text, k) {
        Some((c, n)) => {
            if c == color {
                if i64::MIN <= n <= i64::MAX {
                    assert forall|t: Timestamp| next.contains(t) <==> #[trigger] prev.insert(Timestamp { nanos: n as i64 }).contains(t) by {
                        if t == (Timestamp { nanos: n as i64 }) {
                            assert(marker_at(text, k) == Some((color, t.nanos as int)));
                        }
                        if next.contains(t) {
                            let i = choose|i: int| 0 <= i < k + 1 && #[trigger] marker_at(text, i) == Some((color, t.nanos as int));
                            if i < k {
                                assert(prev.contains(t));
                            }
                        }
                    }
                    assert(next =~= prev.insert(Timestamp { nanos: n as i64 }));
                } else {
                    lemma_seconds_as_nanos_range(marker_tokens(text)[2 * k]);
                }
            } else {
                assert(next =~= prev);
            }
        },
        None => {
            assert(next =~= prev);
        },
    }
    assert forall|t: Timestamp| #[trigger] prev.contains(t) implies next.contains(t) by {
        let i = choose|i: int| 0 <= i < k && #[trigger] marker_at(text, i) == Some((color, t.nanos as int));
        assert(0 <= i < k + 1);
    }
}

impl InnerLevel {
    /// The decoded text.
    pub closed spec fn text(&self) -> Seq<char> {
        self.raw@
    }

    /// Whether the payload failed to decompress, leaving the text empty.
    pub closed spec fn payload_corrupt(&self) -> bool {
        self.decompression_failed
    }

    /// The digest of the text's UTF-8 bytes.
    pub open spec fn digest(&self) -> Seq<u8> {
        md5_digest(encode_utf8(self.text()))
    }

    /// The level whose decoded text is `raw`.
    pub fn from_raw(raw: String) -> (r: InnerLevel)
        ensures
            r.text() == raw@,
            !r.payload_corrupt(),
    {
        InnerLevel { raw, decompression_failed: false }
    }

    /// Whether the payload failed to decompress; the text is then empty.
    pub fn decompression_failed(&self) -> (r: bool)
        ensures
            r == self.payload_corrupt(),
    {
        self.decompression_failed
    }

    /// The decoded text.
    pub fn raw_text(&self) -> (r: &str)
        ensures
            r@ == self.text(),
    {
        self.raw.as_str()
    }

    /// Decodes an embedded payload (base64, then gzip, without the XOR mask). `None` when
    /// the payload is not valid base64; a payload that does not decompress gives an empty
    /// text, and the level says so.
    pub fn try_from_encoded_ils(encoded_ils: &str) -> (r: Option<InnerLevel>)
        ensures
            match decode_spec(encode_utf8(encoded_ils@), false) {
                Ok(text) => r matches Some(l) && l.text() == text && l.payload_corrupt()
                    == decompression_fails_spec(encode_utf8(encoded_ils@), false),
                Err(_) => r is None,
            },
    {
        let bytes = encoded_ils.as_bytes();
        match decode(bytes, false) {
            Ok(d) => Some(InnerLevel { raw: d.text, decompression_failed: d.decompression_failed }),
            Err(_) => None,
        }
    }

    /// The value of the first header property whose key is `key`.
    pub fn get_property(&self, key: &str) -> (r: Option<String>)
        ensures
            match property_spec(self.text(), key@) {
                Some(v) => r matches Some(s) && s@ == v,
                None => r is None,
            },
    {
        let chars = chars_of(self.raw.as_str());
        let end = find_char(&chars, ';');
        proof {
            lemma_find_le(chars@, ';');
        }
        let header = slice_of(&chars, 0, end);
        assert(header@ =~= header_of(chars@));
        let comma = vec![','];
        assert(comma@ =~= seq![',']);
        let tokens = split(&header, &comma);
        let key_chars = chars_of(key);
        let ghost tv = views(tokens@);
        assert(tv.len() == tokens@.len());
        let mut i: usize = 0;
        while i < tokens.len() && tokens.len() - i > 1
            invariant
                i <= tokens@.len(),
                tv == views(tokens@),
                tv.len() == tokens@.len(),
                property_spec(self.text(), key@) == lookup_from(tv, key_chars@, i as int),
                key_chars@ == key@,
            decreases tokens@.len() - i,
        {
            assert(tv[i as int] == tokens@[i as int]@);
            if same_chars(&tokens[i], &key_chars) {
                assert(tv[i as int + 1] == tokens@[i as int + 1]@);
                return Some(string_from_chars(&tokens[i + 1]));
            }
            i += 2;
        }
        None
    }

    /// The markers of the level, by colour. The marker region (after the first `;`, or the
    /// whole text when there is none) is split on `~` and read as (seconds, colour code)
    /// pairs; a pair whose time or code does not read, or whose code is no colour, is
    /// skipped.
    pub fn get_lines(&self) -> (r: RawLinesTriplet)
        ensures
            r.wf(),
            r.orange@ == bucket(self.text(), MarkerColor::Orange),
            r.yellow@ == bucket(self.text(), MarkerColor::Yellow),
            r.green@ == bucket(self.text(), MarkerColor::Green),
    {
        let chars = chars_of(self.raw.as_str());
        let d = find_char(&chars, ';');
        proof {
            lemma_find_le(chars@, ';');
        }
        let region = if d < chars.len() {
            slice_of(&chars, d + 1, chars.len())
        } else {
            slice_of(&chars, 0, chars.len())
        };
        assert(region@ =~= marker_region(self.text()));
        let tilde = vec!['~'];
        assert(tilde@ =~= seq!['~']);
        let tokens = split(&region, &tilde);
        let ghost text = self.text();
        let ghost tv = views(tokens@);
        assert(tv =~= marker_tokens(text));
        let mut lines = RawLinesTriplet::new();
        let pairs = tokens.len() / 2;
        let mut k: usize = 0;
        proof {
            assert(bucket_upto(text, MarkerColor::Orange, 0) =~= Set::<Timestamp>::empty());
            assert(bucket_upto(text, MarkerColor::Yellow, 0) =~= Set::<Timestamp>::empty());
            assert(bucket_upto(text, MarkerColor::Green, 0) =~= Set::<Timestamp>::empty());
        }
        while k < pairs
            invariant
                k <= pairs,
                pairs == tokens@.len() / 2,
                tv == views(tokens@),
                tv == marker_tokens(text),
                text == self.text(),
                lines.wf(),
                lines.orange@ == bucket_upto(text, MarkerColor::Orange, k as int),
                lines.yellow@ == bucket_upto(text, MarkerColor::Yellow, k as int),
                lines.green@ == bucket_upto(text, MarkerColor::Green, k as int),
            decreases pairs - k,
        {
            assert(2 * k + 1 < tokens@.len()) by (nonlinear_arith)
                requires
                    k < pairs,
                    pairs == tokens@.len() / 2,
            ;
            let color = parse_marker_color(&tokens[2 * k + 1]);
            let time = parse_seconds_as_nanos(&tokens[2 * k]);
            proof {
                assert(tv[2 * k as int + 1] == tokens@[2 * k as int + 1]@);
                assert(tv[2 * k as int] == tokens@[2 * k as int]@);
                lemma_bucket_step(text, MarkerColor::Orange, k as int);
                lemma_bucket_step(text, MarkerColor::Yellow, k as int);
                lemma_bucket_step(text, MarkerColor::Green, k as int);
            }
            match (color, time) {
                (Some(MarkerColor::Orange), Some(t)) => {
                    lines.orange.insert(Timestamp::from_nanos(t));
                },
                (Some(MarkerColor::Yellow), Some(t)) => {
                    lines.yellow.insert(Timestamp::from_nanos(t));
                },
                (Some(MarkerColor::Green), Some(t)) => {
                    lines.green.insert(Timestamp::from_nanos(t));
                },
                _ => {},
            }
            k += 1;
        }
        lines
    }

    /// The MD5 digest of the text, for telling edited levels apart.
    pub fn hash(&self) -> (r: [u8; 16])
        ensures
            r@ == self.digest(),
    {
        md5_compute(self.raw.as_str().as_bytes())
    }
}

proof fn lemma_find_le(s: Seq<char>, c: char)
    ensures
        0 <= find_spec(s, c) <= s.len(),
{
    lemma_find_from_bounds(s, c, 0);
}

/// Whether `a` and `b` hold the same characters.
fn same_chars(a: &Vec<char>, b: &Vec<char>) -> (r: bool)
    ensures
        r == (a@ == b@),
{
    if a.len() != b.len() {
        return false;
    }
    let mut i: usize = 0;
    while i < a.len()
        invariant
            i <= a@.len(),
            a@.len() == b@.len(),
            forall|k: int| 0 <= k < i ==> a@[k] == b@[k],
        decreases a@.len() - i,
    {
        if a[i] != b[i] {
            return false;
        }
        i += 1;
    }
    assert(a@ =~= b@);
    true
}

/// Two levels with the same text have the same digest.
pub proof fn lemma_same_text_same_digest(a: &InnerLevel, b: &InnerLevel)
    requires
        a.text() == b.text(),
    ensures
        a.digest() == b.digest(),
{
}

/// A text none of whose pairs is a marker yields three empty sets.
pub proof fn lemma_no_markers_no_lines(text: Seq<char>)
    requires
        forall|i: int| 0 <= i < marker_count(text) ==> #[trigger] marker_at(text, i) is None,
    ensures
        bucket(text, MarkerColor::Orange) == Set::<Timestamp>::empty(),
        bucket(text, MarkerColor::Yellow) == Set::<Timestamp>::empty(),
        bucket(text, MarkerColor::Green) == Set::<Timestamp>::empty(),
{
    assert(bucket(text, MarkerColor::Orange) =~= Set::<Timestamp>::empty());
    assert(bucket(text, MarkerColor::Yellow) =~= Set::<Timestamp>::empty());
    assert(bucket(text, MarkerColor::Green) =~= Set::<Timestamp>::empty());
}

} // verus!
