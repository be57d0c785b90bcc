//! Segment identities and URL filename parsing.
//!
//! The canonical identity is `(channel, rendition, sequence)`. URL filenames
//! render the sequence and an extension (`{sequence}.{ext}`) for readability
//! but never define identity.
use vstd::prelude::*;

use crate::error::{EdamameError, prefixed};
use crate::ordered::SortKey;
use crate::text::{
    KeyOrder, all_digits, chars_lt, chars_of, compare_text, contains_char, decimal, digit_char,
    digit_value, digits_value, find_last, is_digit, last_index_of, lemma_chars_lt_irreflexive,
    lemma_chars_lt_total, lemma_chars_lt_transitive, lemma_last_index_of, owned_text, parse_u64,
    parse_u64_spec, push_char, push_decimal, push_text, text_of,
};

verus! {

/// The canonical, ordered segment identity.
#[derive(Debug, Clone, PartialEq, Eq, PartialOrd, Ord, Hash)]
pub struct SegmentId {
    pub channel: String,
    pub rendition: String,
    pub sequence: u64,
}

impl View for SegmentId {
    type V = (Seq<char>, Seq<char>, u64);

    open spec fn view(&self) -> (Seq<char>, Seq<char>, u64) {
        (self.channel@, self.rendition@, self.sequence)
    }
}

/// Order of segment identities: by channel, then rendition, then sequence.
pub open spec fn segment_precedes(a: (Seq<char>, Seq<char>, u64), b: (Seq<char>, Seq<char>, u64)) -> bool {
    ||| chars_lt(a.0, b.0)
    ||| a.0 == b.0 && chars_lt(a.1, b.1)
    ||| a.0 == b.0 && a.1 == b.1 && a.2 < b.2
}

impl SortKey for SegmentId {
    open spec fn precedes(a: (Seq<char>, Seq<char>, u64), b: (Seq<char>, Seq<char>, u64)) -> bool {
        segment_precedes(a, b)
    }

    proof fn lemma_precedes_irreflexive(a: (Seq<char>, Seq<char>, u64)) {
        lemma_chars_lt_irreflexive(a.0);
        lemma_chars_lt_irreflexive(a.1);
    }

    proof fn lemma_precedes_transitive(
        a: (Seq<char>, Seq<char>, u64),
        b: (Seq<char>, Seq<char>, u64),
        c: (Seq<char>, Seq<char>, u64),
    ) {
        if chars_lt(a.0, b.0) && chars_lt(b.0, c.0) {
            lemma_chars_lt_transitive(a.0, b.0, c.0);
        }
        if a.0 == b.0 && b.0 == c.0 && chars_lt(a.1, b.1) && chars_lt(b.1, c.1) {
            lemma_chars_lt_transitive(a.1, b.1, c.1);
        }
    }

    proof fn lemma_precedes_total(a: (Seq<char>, Seq<char>, u64), b: (Seq<char>, Seq<char>, u64)) {
        lemma_chars_lt_total(a.0, b.0);
        lemma_chars_lt_total(a.1, b.1);
    }

    fn order_with(&self, other: &SegmentId) -> (r: KeyOrder) {
        proof {
            lemma_chars_lt_irreflexive(self.channel@);
            lemma_chars_lt_irreflexive(self.rendition@);
            lemma_chars_lt_total(self.channel@, other.channel@);
            lemma_chars_lt_total(self.rendition@, other.rendition@);
            if chars_lt(self.channel@, other.channel@) && chars_lt(other.channel@, self.channel@) {
                lemma_chars_lt_transitive(self.channel@, other.channel@, self.channel@);
            }
            if chars_lt(self.rendition@, other.rendition@) && chars_lt(
                other.rendition@,
                self.rendition@,
            ) {
                lemma_chars_lt_transitive(self.rendition@, other.rendition@, self.rendition@);
            }
        }
        match compare_text(self.channel.as_str(), other.channel.as_str()) {
            KeyOrder::Before => KeyOrder::Before,
            KeyOrder::After => KeyOrder::After,
            KeyOrder::Same => match compare_text(
                self.rendition.as_str(),
                other.rendition.as_str(),
            ) {
                KeyOrder::Before => KeyOrder::Before,
                KeyOrder::After => KeyOrder::After,
                KeyOrder::Same => {
                    if self.sequence < other.sequence {
                        KeyOrder::Before
                    } else if self.sequence == other.sequence {
                        KeyOrder::Same
                    } else {
                        KeyOrder::After
                    }
                },
            },
        }
    }

    fn duplicate(&self) -> (r: SegmentId) {
        SegmentId {
            channel: owned_text(self.channel.as_str()),
            rendition: owned_text(self.rendition.as_str()),
            sequence: self.sequence,
        }
    }
}

/// Whether an identifier is non-empty and free of path separators.
pub open spec fn valid_identifier(value: Seq<char>) -> bool {
    value.len() > 0 && !value.contains('/') && !value.contains('\\')
}

/// The message `validate_identifier` rejects `value` with, for an invalid one.
pub open spec fn identifier_message(kind: Seq<char>, value: Seq<char>) -> Seq<char> {
    if value.len() == 0 {
        kind + " must not be empty"@
    } else {
        kind + " must not contain path separators: "@ + value
    }
}

/// Rejects empty identifiers and identifiers holding path separators.
pub fn validate_identifier(kind: &str, value: &str) -> (r: Result<(), EdamameError>)
    ensures
        r is Ok <==> valid_identifier(value@),
        !valid_identifier(value@) ==> (r matches Err(EdamameError::BadRequest(m)) && m@
            == identifier_message(kind@, value@)),
{
    if value.is_empty() {
        return Err(EdamameError::BadRequest(prefixed(kind, " must not be empty")));
    }
    if contains_char(value, '/') || contains_char(value, '\\') {
        let mut m = prefixed(kind, " must not contain path separators: ");
        push_text(&mut m, value);
        return Err(EdamameError::BadRequest(m));
    }
    Ok(())
}

impl SegmentId {
    /// Builds a segment identity, validating the channel and rendition.
    pub fn new(channel: &str, rendition: &str, sequence: u64) -> (r: Result<SegmentId, EdamameError>)
        ensures
            r is Ok <==> valid_identifier(channel@) && valid_identifier(rendition@),
            r matches Ok(id) ==> id@ == (channel@, rendition@, sequence),
            !valid_identifier(channel@) ==> (r matches Err(EdamameError::BadRequest(m)) && m@
                == identifier_message("channel"@, channel@)),
            valid_identifier(channel@) && !valid_identifier(rendition@) ==> (r matches Err(
                EdamameError::BadRequest(m),
            ) && m@ == identifier_message("rendition"@, rendition@)),
    {
        validate_identifier("channel", channel)?;
        validate_identifier("rendition", rendition)?;
        Ok(SegmentId { channel: owned_text(channel), rendition: owned_text(rendition), sequence })
    }
}

/// The wire form of a segment identity in JSON payloads.
#[derive(Debug, Clone, PartialEq, Eq)]
pub struct SegmentKey {
    pub channel_id: String,
    pub rendition: String,
    pub sequence: u64,
}

impl SegmentKey {
    /// Turns the wire form into a validated [`SegmentId`].
    pub fn into_id(self) -> (r: Result<SegmentId, EdamameError>)
        ensures
            r is Ok <==> valid_identifier(self.channel_id@) && valid_identifier(self.rendition@),
            r matches Ok(id) ==> id@ == (self.channel_id@, self.rendition@, self.sequence),
            !valid_identifier(self.channel_id@) ==> (r matches Err(EdamameError::BadRequest(m))
                && m@ == identifier_message("channel"@, self.channel_id@)),
            valid_identifier(self.channel_id@) && !valid_identifier(self.rendition@) ==> (r matches Err(
                EdamameError::BadRequest(m),
            ) && m@ == identifier_message("rendition"@, self.rendition@)),
    {
        SegmentId::new(self.channel_id.as_str(), self.rendition.as_str(), self.sequence)
    }
}

impl<'a> From<&'a SegmentId> for SegmentKey {
    fn from(id: &'a SegmentId) -> (k: SegmentKey) {
        SegmentKey {
            channel_id: id.channel.clone(),
            rendition: id.rendition.clone(),
            sequence: id.sequence,
        }
    }
}

impl<'a> vstd::std_specs::convert::FromSpecImpl<&'a SegmentId> for SegmentKey {
    open spec fn obeys_from_spec() -> bool {
        true
    }

    open spec fn from_spec(id: &'a SegmentId) -> SegmentKey {
        SegmentKey { channel_id: id.channel, rendition: id.rendition, sequence: id.sequence }
    }
}

/// Where a segment's bytes live below a storage root:
/// `{channel}/{rendition}/{file_name}`.
#[derive(Debug, Clone, PartialEq, Eq)]
pub struct SegmentPath {
    pub channel: String,
    pub rendition: String,
    pub file_name: String,
}

/// Why a URL filename is rejected.
#[derive(Debug, Clone, Copy, PartialEq, Eq)]
pub enum FilenameFault {
    MissingExtension,
    EmptyExtension,
    BadSequence,
}

/// How `parse_filename` reads a filename: the text after the last `.` is the
/// extension and the text before it is the sequence, as `u64::from_str`
/// reads it.
pub open spec fn parse_filename_spec(f: Seq<char>) -> Result<(u64, Seq<char>), FilenameFault> {
    match last_index_of(f, '.') {
        None => Err(FilenameFault::MissingExtension),
        Some(k) => {
            let ext = f.subrange(k + 1, f.len() as int);
            if ext.len() == 0 {
                Err(FilenameFault::EmptyExtension)
            } else {
                match parse_u64_spec(f.subrange(0, k)) {
                    Some(n) => Ok((n, ext)),
                    None => Err(FilenameFault::BadSequence),
                }
            }
        },
    }
}

/// The message a rejected filename is reported with.
pub open spec fn filename_message(fault: FilenameFault, f: Seq<char>) -> Seq<char> {
    match fault {
        FilenameFault::MissingExtension => "filename must include an extension: "@ + f,
        FilenameFault::EmptyExtension => "filename extension must not be empty: "@ + f,
        FilenameFault::BadSequence => "filename sequence must be a number: "@ + f,
    }
}

/// Parses a URL filename such as `101.ts` into `(sequence, extension)`.
///
/// The extension is kept as given so rewritten URLs preserve `.ts`, `.m4s`
/// or `.mp4`.
pub fn parse_filename(filename: &str) -> (r: Result<(u64, String), EdamameError>)
    ensures
        match parse_filename_spec(filename@) {
            Ok((n, e)) => r matches Ok((m, x)) && m == n && x@ == e,
            Err(fault) => r matches Err(EdamameError::BadRequest(msg)) && msg@ == filename_message(
                fault,
                filename@,
            ),
        },
{
    let chars = chars_of(filename);
    let dot = match find_last(&chars, '.') {
        Some(k) => k,
        None => {
            return Err(
                EdamameError::BadRequest(
                    prefixed("filename must include an extension: ", filename),
                ),
            );
        },
    };
    proof {
        lemma_last_index_of(chars@, '.');
    }
    if dot + 1 == chars.len() {
        return Err(
            EdamameError::BadRequest(prefixed("filename extension must not be empty: ", filename)),
        );
    }
    let sequence = match parse_u64(&chars, 0, dot) {
        Some(n) => n,
        None => {
            return Err(
                EdamameError::BadRequest(prefixed("filename sequence must be a number: ", filename)),
            );
        },
    };
    let ext = text_of(&chars, dot + 1, chars.len());
    Ok((sequence, ext))
}

/// The canonical filename `{sequence}.{ext}`.
pub open spec fn filename_text(sequence: u64, ext: Seq<char>) -> Seq<char> {
    decimal(sequence as nat) + "."@ + ext
}

/// Renders the canonical URL filename from a sequence and an extension.
pub fn render_filename(sequence: u64, ext: &str) -> (s: String)
    ensures
        s@ == filename_text(sequence, ext@),
{
    let mut s = String::new();
    push_decimal(&mut s, sequence);
    push_text(&mut s, ".");
    push_text(&mut s, ext);
    assert(s@ =~= filename_text(sequence, ext@));
    s
}

proof fn lemma_decimal_digits(n: nat)
    ensures
        decimal(n).len() > 0,
        all_digits(decimal(n)),
        digits_value(decimal(n)) == n,
        !decimal(n).contains('.'),
        decimal(n)[0] != '+',
    decreases n,
{
    reveal_strlit(".");
    if n >= 10 {
        lemma_decimal_digits(n / 10);
        let d = decimal(n);
        assert(d.drop_last() =~= decimal(n / 10));
        assert(is_digit(d.last()));
        assert(digit_value(d.last()) == n % 10);
        assert forall|i: int| 0 <= i < d.len() implies is_digit(#[trigger] d[i]) by {
            if i < d.len() - 1 {
                assert(d[i] == decimal(n / 10)[i]);
            }
        }
        assert forall|i: int| 0 <= i < d.len() implies #[trigger] d[i] != '.' by {
            if i < d.len() - 1 {
                assert(d[i] == decimal(n / 10)[i]);
            }
        }
        assert(d[0] == decimal(n / 10)[0]);
    } else {
        let d = decimal(n);
        assert(d.drop_last() =~= Seq::<char>::empty());
        assert(is_digit(d[0]));
        assert(d.last() == d[0]);
        assert(digit_value(d[0]) == n);
        assert(digits_value(d) == digits_value(d.drop_last()) * 10 + digit_value(d.last()));
    }
}

/// A rendered filename parses back to the sequence and extension it was
/// rendered from, for any non-empty extension without a `.`.
pub proof fn lemma_filename_round_trip(sequence: u64, ext: Seq<char>)
    requires
        ext.len() > 0,
        !ext.contains('.'),
    ensures
        parse_filename_spec(filename_text(sequence, ext)) == Ok::<(u64, Seq<char>), FilenameFault>(
            (sequence, ext),
        ),
{
    reveal_strlit(".");
    let d = decimal(sequence as nat);
    let f = filename_text(sequence, ext);
    lemma_decimal_digits(sequence as nat);
    lemma_last_index_of(f, '.');
    let k = d.len() as int;
    assert(f[k] == '.');
    assert forall|j: int| k < j < f.len() implies f[j] != '.' by {
        assert(f[j] == ext[j - k - 1]);
    }
    match last_index_of(f, '.') {
        Some(i) => {
            if i < k {
                assert(f[i] == d[i]);
            }
            assert(i == k);
        },
        None => {
            assert(false);
        },
    }
    assert(f.subrange(k + 1, f.len() as int) =~= ext);
    assert(f.subrange(0, k) =~= d);
}

} // verus!
