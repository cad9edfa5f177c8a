//! The shape of segment keys and the names derived from them.
//!
//! A segment key reads
//! `files/{org}/{stream_type}/{stream_name}/{year}/{month}/{day}/{hour}/{file}`.
//! A key of any other shape is inert: nothing in the catalog acts on it.

use crate::text::{bounds_within, chars_of, pieces, split, split_bounds};
use vstd::prelude::*;
use vstd::string::*;

verus! {

/// The fewest path segments a segment key can have.
pub const MIN_SEGMENTS: usize = 9;

/// The path segments of `key`.
pub open spec fn segments(key: Seq<char>) -> Seq<Seq<char>> {
    split(key, '/')
}

/// Whether `key` has the shape of a segment key: it starts with the segment
/// `files` and has at least nine segments.
pub open spec fn is_segment_key(key: Seq<char>) -> bool {
    segments(key).len() >= MIN_SEGMENTS && segments(key)[0] == "files"@
}

/// The partition a segment lives in, as it is read off the key.
pub struct Scope {
    pub org: Seq<char>,
    pub stream_type: Seq<char>,
    pub stream_name: Seq<char>,
}

/// The partition named by `key`. Meaningful for segment keys only.
pub open spec fn scope_of(key: Seq<char>) -> Scope {
    Scope {
        org: segments(key)[1],
        stream_type: segments(key)[2],
        stream_name: segments(key)[3],
    }
}

/// The name of the delta-log object for a change to the segment `key`, made
/// unique by `unique_id`. The date and hour are those of the segment.
pub open spec fn delta_log_name(key: Seq<char>, unique_id: Seq<char>) -> Seq<char> {
    "file_list/"@ + segments(key)[4] + "/"@ + segments(key)[5] + "/"@ + segments(key)[6] + "/"@
        + segments(key)[7] + "/"@ + unique_id + ".json.zst"@
}

/// The named parts of a segment key.
#[derive(Clone, Debug, PartialEq, Eq)]
pub struct SegmentPath {
    pub org: String,
    pub stream_type: String,
    pub stream_name: String,
    pub year: String,
    pub month: String,
    pub day: String,
    pub hour: String,
}

impl SegmentPath {
    /// Whether these are the parts of `key`.
    pub open spec fn matches_key(&self, key: Seq<char>) -> bool {
        &&& self.org@ == segments(key)[1]
        &&& self.stream_type@ == segments(key)[2]
        &&& self.stream_name@ == segments(key)[3]
        &&& self.year@ == segments(key)[4]
        &&& self.month@ == segments(key)[5]
        &&& self.day@ == segments(key)[6]
        &&& self.hour@ == segments(key)[7]
    }

    /// Reads the parts of `key`, or returns `None` where `key` is not a
    /// segment key.
    pub fn parse(key: &str) -> (path: Option<SegmentPath>)
        ensures
            path is Some <==> is_segment_key(key@),
            path is Some ==> path->Some_0.matches_key(key@),
    {
        let chars = chars_of(key);
        let bounds = split_bounds(&chars, '/');
        if bounds.len() < MIN_SEGMENTS {
            return None;
        }
        assert(pieces(key@, bounds@).len() == bounds@.len());
        let head = piece(key, &bounds, 0);
        if head != "files".to_owned() {
            return None;
        }
        Some(
            SegmentPath {
                org: piece(key, &bounds, 1),
                stream_type: piece(key, &bounds, 2),
                stream_name: piece(key, &bounds, 3),
                year: piece(key, &bounds, 4),
                month: piece(key, &bounds, 5),
                day: piece(key, &bounds, 6),
                hour: piece(key, &bounds, 7),
            },
        )
    }

    /// The name of the delta-log object for a change in this segment's hour.
    pub fn delta_log_name(&self, unique_id: &str) -> (name: String)
        ensures
            name@ == "file_list/"@ + self.year@ + "/"@ + self.month@ + "/"@ + self.day@ + "/"@
                + self.hour@ + "/"@ + unique_id@ + ".json.zst"@,
    {
        let mut name = "file_list/".to_owned();
        name.append(self.year.as_str());
        name.append("/");
        name.append(self.month.as_str());
        name.append("/");
        name.append(self.day.as_str());
        name.append("/");
        name.append(self.hour.as_str());
        name.append("/");
        name.append(unique_id);
        name.append(".json.zst");
        name
    }
}

/// The piece of `key` that the pair at `index` cuts out.
fn piece(key: &str, bounds: &Vec<(usize, usize)>, index: usize) -> (text: String)
    requires
        index < bounds@.len(),
        bounds_within(bounds@, key@.len()),
    ensures
        text@ == pieces(key@, bounds@)[index as int],
{
    let (from, to) = bounds[index];
    key.substring_char(from, to).to_owned()
}

/// Whether `key` has the shape of a segment key.
pub fn check_segment_key(key: &str) -> (valid: bool)
    ensures
        valid == is_segment_key(key@),
{
    SegmentPath::parse(key).is_some()
}

/// The name of a delta-log object tells its unique id: for one segment, two
/// ids give two names.
pub proof fn lemma_name_tells_id(key: Seq<char>, first: Seq<char>, second: Seq<char>)
    requires
        delta_log_name(key, first) == delta_log_name(key, second),
    ensures
        first == second,
{
    let head = "file_list/"@ + segments(key)[4] + "/"@ + segments(key)[5] + "/"@ + segments(
        key,
    )[6] + "/"@ + segments(key)[7] + "/"@;
    let tail = ".json.zst"@;
    let one = head + first + tail;
    let other = head + second + tail;
    assert(one == other);
    assert(first.len() == second.len()) by {
        assert(one.len() == head.len() + first.len() + tail.len());
        assert(other.len() == head.len() + second.len() + tail.len());
    }
    assert forall|j: int| 0 <= j < first.len() implies first[j] == second[j] by {
        assert(one[head.len() + j] == first[j]);
        assert(other[head.len() + j] == second[j]);
    }
    assert(first =~= second);
}

} // verus!
