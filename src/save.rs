//! The level list of a decoded save: outer level records and lookup of a level's payload.
use crate::codec::{decode_spec, decompression_fails_spec};
use crate::level::InnerLevel;
use vstd::prelude::*;
use vstd::utf8::encode_utf8;

verus! {

/// A property-list value, as far as the level list reads it.
#[derive(Debug)]
pub enum PlistValue {
    /// A dictionary: key/value entries in document order.
    Dict(Vec<(String, PlistValue)>),
    /// A string.
    Str(String),
    /// A signed integer.
    Int(i64),
    /// Any other value.
    Other,
}

/// Why a level list or a level cannot be read.
#[derive(Debug, Clone, Copy, PartialEq, Eq, Structural)]
pub enum LoadError {
    /// The document has no dictionary of levels under the level-list key.
    MissingLevelList,
    /// No level has the name and revision asked for.
    LevelNotFound,
    /// The level has no string payload.
    MissingPayload,
    /// The level's payload is not valid base64.
    UndecodablePayload,
}

/// The key of the level-list dictionary in the save's top-level dictionary.
pub open spec fn level_list_key() -> Seq<char> {
    "LLM_01"@
}

/// The key that marks the level list as array-like; it holds no level.
pub open spec fn array_marker_key() -> Seq<char> {
    "_isArr"@
}

/// The key of a level's name.
pub open spec fn name_key() -> Seq<char> {
    "k2"@
}

/// The key of a level's revision.
pub open spec fn revision_key() -> Seq<char> {
    "k46"@
}

/// The key of a level's encoded payload.
pub open spec fn payload_key() -> Seq<char> {
    "k4"@
}

/// The value of the first entry from index `i` on whose key is `key`.
pub open spec fn dict_get_from(entries: Seq<(String, PlistValue)>, key: Seq<char>, i: int) -> Option<
    PlistValue,
>
    decreases entries.len() - i,
{
    if i < 0 || i >= entries.len() {
        None
    } else if entries[i].0@ == key {
        Some(entries[i].1)
    } else {
        dict_get_from(entries, key, i + 1)
    }
}

/// The value of the first entry whose key is `key`.
pub open spec fn dict_get(entries: Seq<(String, PlistValue)>, key: Seq<char>) -> Option<PlistValue> {
    dict_get_from(entries, key, 0)
}

/// The entries of the level list, when the document has one.
pub open spec fn level_list(root: PlistValue) -> Option<Seq<(String, PlistValue)>> {
    match root {
        PlistValue::Dict(top) => match dict_get(top@, level_list_key()) {
            Some(PlistValue::Dict(entries)) => Some(entries@),
            _ => None,
        },
        _ => None,
    }
}

/// A level's revision: its integer revision field, if there is one.
pub open spec fn revision_of(fields: Seq<(String, PlistValue)>) -> Option<i64> {
    match dict_get(fields, revision_key()) {
        Some(PlistValue::Int(r)) => Some(r),
        _ => None,
    }
}

/// The name and revision of a level-list entry; `None` for the array marker, for a value
/// that is no dictionary, and for a level without a string name, which are skipped.
pub open spec fn entry_level(entry: (String, PlistValue)) -> Option<(Seq<char>, Option<i64>)> {
    if entry.0@ == array_marker_key() {
        None
    } else {
        match entry.1 {
            PlistValue::Dict(fields) => match dict_get(fields@, name_key()) {
                Some(PlistValue::Str(name)) => Some((name@, revision_of(fields@))),
                _ => None,
            },
            _ => None,
        }
    }
}

/// The levels of the entries from index `i` on, in order.
pub open spec fn levels_from(entries: Seq<(String, PlistValue)>, i: int) -> Seq<
    (Seq<char>, Option<i64>),
>
    decreases entries.len() - i,
{
    if i < 0 || i >= entries.len() {
        Seq::empty()
    } else {
        match entry_level(entries[i]) {
            Some(l) => seq![l] + levels_from(entries, i + 1),
            None => levels_from(entries, i + 1),
        }
    }
}

/// Whether a level-list entry is the level with this name and revision.
pub open spec fn entry_matches(
    entry: (String, PlistValue),
    name: Seq<char>,
    revision: Option<i64>,
) -> bool {
    entry_level(entry) == Some((name, revision))
}

/// The index of the first entry from `i` on that is the level with this name and revision.
pub open spec fn find_level_from(
    entries: Seq<(String, PlistValue)>,
    name: Seq<char>,
    revision: Option<i64>,
    i: int,
) -> Option<int>
    decreases entries.len() - i,
{
    if i < 0 || i >= entries.len() {
        None
    } else if entry_matches(entries[i], name, revision) {
        Some(i)
    } else {
        find_level_from(entries, name, revision, i + 1)
    }
}

/// The decoded text of the level with this name and revision, or why there is none.
pub open spec fn inner_text_spec(root: PlistValue, name: Seq<char>, revision: Option<i64>) -> Result<
    Seq<char>,
    LoadError,
> {
    match level_list(root) {
        None => Err(LoadError::MissingLevelList),
        Some(entries) => match find_level_from(entries, name, revision, 0) {
            None => Err(LoadError::LevelNotFound),
            Some(i) => match entries[i].1 {
                PlistValue::Dict(fields) => match dict_get(fields@, payload_key()) {
                    Some(PlistValue::Str(p)) => match decode_spec(encode_utf8(p@), false) {
                        Ok(t) => Ok(t),
                        Err(_) => Err(LoadError::UndecodablePayload),
                    },
                    _ => Err(LoadError::MissingPayload),
                },
                _ => Err(LoadError::LevelNotFound),
            },
        },
    }
}

/// Whether the payload of the level with this name and revision fails to decompress.
pub open spec fn inner_corrupt_spec(root: PlistValue, name: Seq<char>, revision: Option<i64>) -> bool {
    match level_list(root) {
        None => false,
        Some(entries) => match find_level_from(entries, name, revision, 0) {
            None => false,
            Some(i) => match entries[i].1 {
                PlistValue::Dict(fields) => match dict_get(fields@, payload_key()) {
                    Some(PlistValue::Str(p)) => decompression_fails_spec(encode_utf8(p@), false),
                    _ => false,
                },
                _ => false,
            },
        },
    }
}

/// The keys of the entries from index `i` on that are skipped: neither the array marker nor
/// a readable level.
pub open spec fn skipped_from(entries: Seq<(String, PlistValue)>, i: int) -> Seq<Seq<char>>
    decreases entries.len() - i,
{
    if i < 0 || i >= entries.len() {
        Seq::empty()
    } else if entries[i].0@ != array_marker_key() && entry_level(entries[i]) is None {
        seq![entries[i].0@] + skipped_from(entries, i + 1)
    } else {
        skipped_from(entries, i + 1)
    }
}

/// The value of the first entry whose key is `key`.
fn lookup<'a>(entries: &'a Vec<(String, PlistValue)>, key: &String) -> (r: Option<&'a PlistValue>)
    ensures
        dict_get(entries@, key@) == match r {
            Some(v) => Some(*v),
            None => None::<PlistValue>,
        },
{
    let mut i: usize = 0;
    while i < entries.len()
        invariant
            i <= entries@.len(),
            dict_get(entries@, key@) == dict_get_from(entries@, key@, i as int),
        decreases entries@.len() - i,
    {
        if entries[i].0 == *key {
            return Some(&entries[i].1);
        }
        i += 1;
    }
    None
}

/// The entries of the level list.
fn level_entries(root: &PlistValue) -> (r: Option<&Vec<(String, PlistValue)>>)
    ensures
        level_list(*root) == match r {
            Some(v) => Some(v@),
            None => None::<Seq<(String, PlistValue)>>,
        },
{
    let key = "LLM_01".to_owned();
    proof {
        reveal_strlit("LLM_01");
    }
    match root {
        PlistValue::Dict(top) => match lookup(top, &key) {
            Some(PlistValue::Dict(entries)) => Some(entries),
            _ => None,
        },
        _ => None,
    }
}

/// A level as the level list names it.
#[derive(Debug, Clone)]
pub struct OuterLevel {
    name: String,
    revision: Option<i64>,
}

impl View for OuterLevel {
    type V = (Seq<char>, Option<i64>);

    closed spec fn view(&self) -> (Seq<char>, Option<i64>) {
        (self.name@, self.revision)
    }
}

/// The views of a vector of levels.
pub open spec fn level_views(v: Seq<OuterLevel>) -> Seq<(Seq<char>, Option<i64>)> {
    v.map_values(|l: OuterLevel| l@)
}

/// The name and revision of an entry, read as `entry_level` says.
fn read_entry(entry: &(String, PlistValue), keys: &LevelKeys) -> (r: Option<OuterLevel>)
    requires
        keys.wf(),
    ensures
        entry_level(*entry) == match r {
            Some(l) => Some(l@),
            None => None::<(Seq<char>, Option<i64>)>,
        },
{
    if entry.0 == keys.array_marker {
        return None;
    }
    match &entry.1 {
        PlistValue::Dict(fields) => match lookup(fields, &keys.name) {
            Some(PlistValue::Str(name)) => {
                let revision = match lookup(fields, &keys.revision) {
                    Some(PlistValue::Int(r)) => Some(*r),
                    _ => None,
                };
                Some(OuterLevel { name: name.clone(), revision })
            },
            _ => None,
        },
        _ => None,
    }
}

/// The field keys a level entry is read with.
struct LevelKeys {
    array_marker: String,
    name: String,
    revision: String,
    payload: String,
}

impl LevelKeys {
    spec fn wf(&self) -> bool {
        &&& self.array_marker@ == array_marker_key()
        &&& self.name@ == name_key()
        &&& self.revision@ == revision_key()
        &&& self.payload@ == payload_key()
    }

    fn new() -> (r: LevelKeys)
        ensures
            r.wf(),
    {
        proof {
            reveal_strlit("_isArr");
            reveal_strlit("k2");
            reveal_strlit("k46");
            reveal_strlit("k4");
        }
        LevelKeys {
            array_marker: "_isArr".to_owned(),
            name: "k2".to_owned(),
            revision: "k46".to_owned(),
            payload: "k4".to_owned(),
        }
    }
}

impl OuterLevel {
    /// The level named `name`, with `revision`.
    pub fn new(name: String, revision: Option<i64>) -> (r: OuterLevel)
        ensures
            r@ == (name@, revision),
    {
        OuterLevel { name, revision }
    }

    /// The level's name.
    pub fn name(&self) -> (r: &str)
        ensures
            r@ == self@.0,
    {
        self.name.as_str()
    }

    /// The level's revision, if it has one.
    pub fn revision(&self) -> (r: Option<i64>)
        ensures
            r == self@.1,
    {
        self.revision
    }

    /// The levels of a decoded save document, in document order. The array marker entry,
    /// entries that are no dictionary and levels without a string name are skipped; a
    /// revision that is missing or no integer is read as none.
    pub fn load_all(root: &PlistValue) -> (r: Result<Vec<OuterLevel>, LoadError>)
        ensures
            match level_list(*root) {
                None => r == Err::<Vec<OuterLevel>, LoadError>(LoadError::MissingLevelList),
                Some(entries) => r matches Ok(v) && level_views(v@) == levels_from(entries, 0),
            },
    {
        let entries = match level_entries(root) {
            Some(e) => e,
            None => return Err(LoadError::MissingLevelList),
        };
        let keys = LevelKeys::new();
        let mut out: Vec<OuterLevel> = Vec::new();
        let mut i: usize = 0;
        while i < entries.len()
            invariant
                i <= entries@.len(),
                keys.wf(),
                levels_from(entries@, 0) == level_views(out@) + levels_from(entries@, i as int),
            decreases entries@.len() - i,
        {
            let ghost before = out@;
            match read_entry(&entries[i], &keys) {
                Some(level) => {
                    out.push(level);
                    assert(level_views(out@) =~= level_views(before).push(level@));
                    assert(level_views(out@) + levels_from(entries@, i + 1) =~= level_views(before)
                        + levels_from(entries@, i as int));
                },
                None => {},
            }
            i += 1;
        }
        assert(levels_from(entries@, i as int) =~= Seq::<(Seq<char>, Option<i64>)>::empty());
        assert(level_views(out@) + levels_from(entries@, i as int) =~= level_views(out@));
        Ok(out)
    }

    /// The keys of the level-list entries that `load_all` skips (other than the array
    /// marker): entries that are no dictionary or have no string name.
    pub fn skipped_entries(root: &PlistValue) -> (r: Result<Vec<String>, LoadError>)
        ensures
            match level_list(*root) {
                None => r == Err::<Vec<String>, LoadError>(LoadError::MissingLevelList),
                Some(entries) => r matches Ok(v) && v@.map_values(|k: String| k@) == skipped_from(
                    entries,
                    0,
                ),
            },
    {
        let entries = match level_entries(root) {
            Some(e) => e,
            None => return Err(LoadError::MissingLevelList),
        };
        let keys = LevelKeys::new();
        let mut out: Vec<String> = Vec::new();
        let mut i: usize = 0;
        while i < entries.len()
            invariant
                i <= entries@.len(),
                keys.wf(),
                skipped_from(entries@, 0) == out@.map_values(|k: String| k@) + skipped_from(
                    entries@,
                    i as int,
                ),
            decreases entries@.len() - i,
        {
            let ghost before = out@;
            if !(entries[i].0 == keys.array_marker) && read_entry(&entries[i], &keys).is_none() {
                out.push(entries[i].0.clone());
                assert(out@.map_values(|k: String| k@) =~= before.map_values(|k: String| k@).push(
                    entries@[i as int].0@,
                ));
                assert(out@.map_values(|k: String| k@) + skipped_from(entries@, i + 1)
                    =~= before.map_values(|k: String| k@) + skipped_from(entries@, i as int));
            }
            i += 1;
        }
        assert(out@.map_values(|k: String| k@) + skipped_from(entries@, i as int) =~= out@.map_values(
            |k: String| k@,
        ));
        Ok(out)
    }

    /// The decoded payload of this level in a decoded save document: the first entry with
    /// this name and revision, its payload decoded without the XOR mask.
    pub fn load_inner(&self, root: &PlistValue) -> (r: Result<InnerLevel, LoadError>)
        ensures
            match inner_text_spec(*root, self@.0, self@.1) {
                Ok(t) => r matches Ok(l) && l.text() == t && l.payload_corrupt()
                    == inner_corrupt_spec(*root, self@.0, self@.1),
                Err(e) => r == Err::<InnerLevel, LoadError>(e),
            },
    {
        let entries = match level_entries(root) {
            Some(e) => e,
            None => return Err(LoadError::MissingLevelList),
        };
        let keys = LevelKeys::new();
        let mut i: usize = 0;
        while i < entries.len()
            invariant
                i <= entries@.len(),
                keys.wf(),
                level_list(*root) == Some(entries@),
                find_level_from(entries@, self@.0, self@.1, 0) == find_level_from(
                    entries@,
                    self@.0,
                    self@.1,
                    i as int,
                ),
            decreases entries@.len() - i,
        {
            let found = match read_entry(&entries[i], &keys) {
                Some(level) => level.name == self.name && match (level.revision, self.revision) {
                    (Some(a), Some(b)) => a == b,
                    (None, None) => true,
                    _ => false,
                },
                None => false,
            };
            if found {
                let fields = match &entries[i].1 {
                    PlistValue::Dict(fields) => fields,
                    _ => return Err(LoadError::LevelNotFound),
                };
                let payload = match lookup(fields, &keys.payload) {
                    Some(PlistValue::Str(payload)) => payload,
                    _ => return Err(LoadError::MissingPayload),
                };
                return match InnerLevel::try_from_encoded_ils(payload.as_str()) {
                    Some(inner) => Ok(inner),
                    None => Err(LoadError::UndecodablePayload),
                };
            }
            i += 1;
        }
        Err(LoadError::LevelNotFound)
    }
}

} // verus!
