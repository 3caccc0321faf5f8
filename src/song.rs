//! Song metadata as the game's server reports it.
use crate::text::{
    all_digits, chars_of, digits_value, digits_value_capped, has_sign, is_negative, slice_of,
    split, split_spec, string_from_chars, unsigned_part, views,
};
use vstd::prelude::*;
use vstd::utf8::{decode_utf8, encode_utf8, valid_utf8};

verus! {

/// The number of positional fields in a song-metadata response.
pub const FIELD_COUNT: usize = 10;

/// Whether `b` is an ASCII hexadecimal digit.
pub open spec fn is_hex_digit(b: u8) -> bool {
    (0x30 <= b <= 0x39) || (0x41 <= b <= 0x46) || (0x61 <= b <= 0x66)
}

/// The value of the hexadecimal digit `b`.
pub open spec fn hex_value(b: u8) -> int {
    if b <= 0x39 {
        b - 0x30
    } else if b <= 0x46 {
        b - 0x41 + 10
    } else {
        b - 0x61 + 10
    }
}

/// The bytes with each `%` followed by two hexadecimal digits replaced by the byte they
/// spell; every other byte, a `%` without two digits after it included, is kept.
pub open spec fn percent_decode_bytes(b: Seq<u8>) -> Seq<u8>
    decreases b.len(),
{
    if b.len() == 0 {
        Seq::empty()
    } else if b[0] == 0x25 && b.len() >= 3 && is_hex_digit(b[1]) && is_hex_digit(b[2]) {
        seq![(hex_value(b[1]) * 16 + hex_value(b[2])) as u8] + percent_decode_bytes(b.skip(3))
    } else {
        seq![b[0]] + percent_decode_bytes(b.drop_first())
    }
}

/// What percent-decoding makes of `s`: the decoded bytes read as UTF-8, `None` when they
/// are no UTF-8.
pub open spec fn percent_decoded(s: Seq<char>) -> Option<Seq<char>> {
    let b = percent_decode_bytes(encode_utf8(s));
    if valid_utf8(b) {
        Some(decode_utf8(b))
    } else {
        None
    }
}

/// Relies on urlencoding's `decode`: each `%` and two hexadecimal digits become one byte,
/// other bytes are kept, and the result is read as UTF-8 (an error when it is none).
#[verifier::external_body]
fn url_decode(s: &str) -> (r: Option<String>)
    ensures
        percent_decoded(s@) == match r {
            Some(t) => Some(t@),
            None => None::<Seq<char>>,
        },
{
    urlencoding::decode(s).ok().map(|c| c.into_owned())
}

/// The song a level uses.
#[derive(Debug, Clone, Copy, PartialEq, Eq, Structural)]
pub enum Song {
    /// One of the game's own songs.
    Official { id: i32 },
    /// A song hosted on Newgrounds.
    Newgrounds { id: i32 },
    /// A song that cannot be told.
    Unknown,
}

/// Why song metadata could not be had.
#[derive(Debug, Clone, Copy, PartialEq, Eq, Structural)]
pub enum SongRequestError {
    /// The request did not go through.
    ConnectionFailure,
    /// A field index in the response is not a number from 1 to `FIELD_COUNT`.
    ParseFailure,
    /// The song is not hosted on Newgrounds.
    NotNewgrounds,
}

impl Song {
    /// The Newgrounds id of the song, which metadata is requested with.
    pub fn newgrounds_id(&self) -> (r: Result<i32, SongRequestError>)
        ensures
            match *self {
                Song::Newgrounds { id } => r == Ok::<i32, SongRequestError>(id),
                _ => r == Err::<i32, SongRequestError>(SongRequestError::NotNewgrounds),
            },
    {
        match self {
            Song::Newgrounds { id } => Ok(*id),
            _ => Err(SongRequestError::NotNewgrounds),
        }
    }
}

/// The separator between response fields.
pub open spec fn field_separator() -> Seq<char> {
    "~|~"@
}

/// The digits of an unsigned number token, without a leading `+`.
pub open spec fn plus_stripped(t: Seq<char>) -> Seq<char> {
    if t.len() > 0 && t[0] == '+' {
        t.drop_first()
    } else {
        t
    }
}

/// The slot a field-index token names: the index, read as an unsigned decimal number with
/// an optional `+`, counts from 1 to `FIELD_COUNT`.
pub open spec fn slot_of(t: Seq<char>) -> Option<int> {
    let d = plus_stripped(t);
    if d.len() > 0 && all_digits(d) && 1 <= digits_value(d) <= FIELD_COUNT {
        Some(digits_value(d) - 1)
    } else {
        None
    }
}

/// The fields after the first `k` (index, value) pairs; `None` once an index does not read.
pub open spec fn fields_after(tokens: Seq<Seq<char>>, k: int) -> Option<Seq<Option<Seq<char>>>>
    decreases k,
{
    if k <= 0 {
        Some(Seq::new(FIELD_COUNT as nat, |i: int| None::<Seq<char>>))
    } else {
        match fields_after(tokens, k - 1) {
            None => None,
            Some(f) => match slot_of(tokens[2 * (k - 1)]) {
                None => None,
                Some(s) => Some(f.update(s, Some(tokens[2 * (k - 1) + 1]))),
            },
        }
    }
}

/// The fields of a response: the text split on `~|~` is read as (index, value) pairs; a
/// trailing token without a partner is ignored.
pub open spec fn response_fields(text: Seq<char>) -> Option<Seq<Option<Seq<char>>>> {
    let t = split_spec(text, field_separator());
    fields_after(t, t.len() as int / 2)
}

/// A signed 32-bit decimal number: an optional sign and at least one digit, in range.
pub open spec fn i32_value(t: Seq<char>) -> Option<i32> {
    let d = unsigned_part(t);
    let v = if is_negative(t) {
        -digits_value(d)
    } else {
        digits_value(d)
    };
    if d.len() > 0 && all_digits(d) && i32::MIN <= v <= i32::MAX {
        Some(v as i32)
    } else {
        None
    }
}

/// The view of an optional string.
pub open spec fn opt_view(o: Option<String>) -> Option<Seq<char>> {
    match o {
        Some(s) => Some(s@),
        None => None,
    }
}

/// The number a field holds, if the field is there and reads as an `i32`.
pub open spec fn field_i32(f: Option<Seq<char>>) -> Option<i32> {
    match f {
        Some(s) => i32_value(s),
        None => None,
    }
}

/// Whether every character is a digit.
fn check_digits(d: &Vec<char>) -> (r: bool)
    ensures
        r == all_digits(d@),
{
    let mut i: usize = 0;
    while i < d.len()
        invariant
            i <= d@.len(),
            forall|k: int| 0 <= k < i ==> '0' <= #[trigger] d@[k] <= '9',
        decreases d@.len() - i,
    {
        if !('0' <= d[i] && d[i] <= '9') {
            assert(!('0' <= d@[i as int] <= '9'));
            return false;
        }
        i += 1;
    }
    true
}

/// The slot a field-index token names.
fn parse_slot(t: &Vec<char>) -> (r: Option<usize>)
    ensures
        slot_of(t@) == match r {
            Some(s) => Some(s as int),
            None => None::<int>,
        },
{
    let d = if t.len() > 0 && t[0] == '+' {
        slice_of(t, 1, t.len())
    } else {
        slice_of(t, 0, t.len())
    };
    assert(d@ =~= plus_stripped(t@));
    if d.len() == 0 || !check_digits(&d) {
        return None;
    }
    let v = digits_value_capped(&d, FIELD_COUNT as u64);
    if v < 1 || v > FIELD_COUNT as u64 {
        return None;
    }
    Some((v - 1) as usize)
}

/// A signed 32-bit decimal number.
pub fn parse_i32(s: &str) -> (r: Option<i32>)
    ensures
        r == i32_value(s@),
{
    let t = chars_of(s);
    let d = if t.len() > 0 && (t[0] == '+' || t[0] == '-') {
        slice_of(&t, 1, t.len())
    } else {
        slice_of(&t, 0, t.len())
    };
    assert(d@ =~= unsigned_part(t@));
    if d.len() == 0 || !check_digits(&d) {
        return None;
    }
    let cap: u64 = 2_147_483_648;
    let w = digits_value_capped(&d, cap);
    if w > cap {
        return None;
    }
    let negative = t.len() > 0 && t[0] == '-';
    let v: i64 = if negative {
        -(w as i64)
    } else {
        w as i64
    };
    if v < i32::MIN as i64 || v > i32::MAX as i64 {
        return None;
    }
    Some(v as i32)
}

/// The fields of a song-metadata response, by position: id, name, artist id, artist name,
/// size, video id, YouTube URL, an unused slot, priority, and the percent-encoded download
/// link.
#[derive(Debug, Clone)]
pub struct SongResponse {
    fields: Vec<Option<String>>,
}

impl View for SongResponse {
    type V = Seq<Option<Seq<char>>>;

    closed spec fn view(&self) -> Seq<Option<Seq<char>>> {
        self.fields@.map_values(|o: Option<String>| opt_view(o))
    }
}

impl SongResponse {
    /// There is one slot per field.
    pub closed spec fn wf(&self) -> bool {
        self.fields@.len() == FIELD_COUNT
    }

    /// Reads a response text. Each (index, value) pair sets the field the index names (from
    /// 1); a later pair for the same field wins. An index that does not read as a number
    /// from 1 to `FIELD_COUNT` is a parse failure.
    pub fn parse(text: &str) -> (r: Result<SongResponse, SongRequestError>)
        ensures
            match response_fields(text@) {
                Some(f) => r matches Ok(resp) && resp.wf() && resp@ == f,
                None => r == Err::<SongResponse, SongRequestError>(SongRequestError::ParseFailure),
            },
    {
        let chars = chars_of(text);
        let sep = chars_of("~|~");
        proof {
            reveal_strlit("~|~");
        }
        let tokens = split(&chars, &sep);
        let ghost tv = views(tokens@);
        assert(tv == split_spec(text@, field_separator()));
        let mut fields: Vec<Option<String>> = Vec::new();
        let mut n: usize = 0;
        while n < FIELD_COUNT
            invariant
                n <= FIELD_COUNT,
                fields@.len() == n,
                forall|i: int| 0 <= i < n ==> #[trigger] fields@[i] is None,
            decreases FIELD_COUNT - n,
        {
            fields.push(None);
            n += 1;
        }
        let ghost empty = Seq::new(FIELD_COUNT as nat, |i: int| None::<Seq<char>>);
        assert(fields@.map_values(|o: Option<String>| opt_view(o)) =~= empty);
        let pairs = tokens.len() / 2;
        let mut k: usize = 0;
        while k < pairs
            invariant
                k <= pairs,
                pairs == tokens@.len() / 2,
                tv == views(tokens@),
                tv == split_spec(text@, field_separator()),
                fields@.len() == FIELD_COUNT,
                fields_after(tv, k as int) == Some(fields@.map_values(|o: Option<String>| opt_view(o))),
            decreases pairs - k,
        {
            assert(2 * k + 1 < tokens@.len()) by (nonlinear_arith)
                requires
                    k < pairs,
                    pairs == tokens@.len() / 2,
            ;
            assert(tv[2 * k as int] == tokens@[2 * k as int]@);
            assert(tv[2 * k as int + 1] == tokens@[2 * k as int + 1]@);
            let slot = match parse_slot(&tokens[2 * k]) {
                Some(s) => s,
                None => {
                    proof {
                        lemma_fields_fail_stays(tv, k as int + 1, tv.len() as int / 2);
                    }
                    return Err(SongRequestError::ParseFailure);
                },
            };
            let value = string_from_chars(&tokens[2 * k + 1]);
            let ghost before = fields@;
            fields.set(slot, Some(value));
            assert(fields@.map_values(|o: Option<String>| opt_view(o)) =~= before.map_values(
                |o: Option<String>| opt_view(o),
            ).update(slot as int, Some(value@)));
            k += 1;
        }
        Ok(SongResponse { fields })
    }

    /// The song's id.
    pub fn id(&self) -> (r: Option<i32>)
        requires
            self.wf(),
        ensures
            r == field_i32(self@[0]),
    {
        self.number_at(0)
    }

    /// The song's name.
    pub fn name(&self) -> (r: Option<&str>)
        requires
            self.wf(),
        ensures
            self@[1] == match r {
                Some(s) => Some(s@),
                None => None::<Seq<char>>,
            },
    {
        self.text_at(1)
    }

    /// The artist's id.
    pub fn artist_id(&self) -> (r: Option<i32>)
        requires
            self.wf(),
        ensures
            r == field_i32(self@[2]),
    {
        self.number_at(2)
    }

    /// The artist's name.
    pub fn artist_name(&self) -> (r: Option<&str>)
        requires
            self.wf(),
        ensures
            self@[3] == match r {
                Some(s) => Some(s@),
                None => None::<Seq<char>>,
            },
    {
        self.text_at(3)
    }

    /// The song's size.
    pub fn size(&self) -> (r: Option<i32>)
        requires
            self.wf(),
        ensures
            r == field_i32(self@[4]),
    {
        self.number_at(4)
    }

    /// The video id.
    pub fn video_id(&self) -> (r: Option<&str>)
        requires
            self.wf(),
        ensures
            self@[5] == match r {
                Some(s) => Some(s@),
                None => None::<Seq<char>>,
            },
    {
        self.text_at(5)
    }

    /// The YouTube URL.
    pub fn youtube_url(&self) -> (r: Option<&str>)
        requires
            self.wf(),
        ensures
            self@[6] == match r {
                Some(s) => Some(s@),
                None => None::<Seq<char>>,
            },
    {
        self.text_at(6)
    }

    /// The song's priority.
    pub fn song_priority(&self) -> (r: Option<i32>)
        requires
            self.wf(),
        ensures
            r == field_i32(self@[8]),
    {
        self.number_at(8)
    }

    /// The download link, percent-decoded; `None` when the field is missing or does not
    /// decode.
    pub fn download_link(&self) -> (r: Option<String>)
        requires
            self.wf(),
        ensures
            opt_view(r) == match self@[9] {
                Some(s) => percent_decoded(s),
                None => None,
            },
    {
        match self.text_at(9) {
            Some(link) => url_decode(link),
            None => None,
        }
    }

    fn text_at(&self, i: usize) -> (r: Option<&str>)
        requires
            self.wf(),
            i < FIELD_COUNT,
        ensures
            self@[i as int] == match r {
                Some(s) => Some(s@),
                None => None::<Seq<char>>,
            },
    {
        match &self.fields[i] {
            Some(s) => Some(s.as_str()),
            None => None,
        }
    }

    fn number_at(&self, i: usize) -> (r: Option<i32>)
        requires
            self.wf(),
            i < FIELD_COUNT,
        ensures
            r == field_i32(self@[i as int]),
    {
        match self.text_at(i) {
            Some(s) => parse_i32(s),
            None => None,
        }
    }
}

proof fn lemma_fields_fail_stays(tokens: Seq<Seq<char>>, k: int, n: int)
    requires
        1 <= k <= n,
        fields_after(tokens, k) is None,
    ensures
        fields_after(tokens, n) is None,
    decreases n - k,
{
    if k < n {
        lemma_fields_fail_stays(tokens, k + 1, n);
    }
}

} // verus!
